//! The span lifecycle engine: a message-driven state machine that maps
//! host-reported activity events onto a deterministic sequence of span
//! operations.
//!
//! The engine owns no tracer and performs no export itself: each call
//! returns the span operations it decides on, in order, and the caller
//! (the exporter runtime) carries them out. This keeps the engine a pure,
//! single-writer state machine over owned values.

use std::collections::HashMap;

use vstd::prelude::*;

use crate::activity::{
    ActivityId, ActivityKind, ActivityRecord, ActivityRecordV, Field, FieldV, ResultKind,
    fields_view, result_kind_label,
};
use crate::text::{field_chars, field_string, field_strings, fields_chars};

verus! {

broadcast use vstd::std_specs::hash::group_hash_axioms;

/// The span identifier of the root span covering the whole run. Activity
/// spans are numbered from 1 upward, in creation order.
pub open spec fn root_span() -> u64 {
    0
}

/// One operation on the run's trace: open a span, close a span, attach an
/// event to a span, or flush the export pipeline. The engine emits these in
/// the exact order they must be carried out.
#[derive(Debug, Clone, PartialEq, Eq)]
pub enum SpanOp {
    /// Open span `span` under `parent` (`None` only for the root span),
    /// named `name`, starting at `time`. `kind` is the activity-kind
    /// attribute; phase spans and the root span carry none.
    Open { span: u64, parent: Option<u64>, name: String, kind: Option<ActivityKind>, time: u64 },
    /// Close span `span` at `time`.
    Close { span: u64, time: u64 },
    /// Attach an event named `name` to span `span` at `time`, with the
    /// event kind and the rendered field list as attributes.
    Event { span: u64, name: String, kind: ResultKind, time: u64, fields: Vec<String> },
    /// Force the export pipeline to flush.
    Flush,
}

/// Mathematical value of a `SpanOp`.
pub ghost enum OpV {
    Open { span: u64, parent: Option<u64>, name: Seq<char>, kind: Option<ActivityKind>, time: u64 },
    Close { span: u64, time: u64 },
    Event { span: u64, name: Seq<char>, kind: ResultKind, time: u64, fields: Seq<Seq<char>> },
    Flush,
}

impl View for SpanOp {
    type V = OpV;

    open spec fn view(&self) -> OpV {
        match self {
            SpanOp::Open { span, parent, name, kind, time } => OpV::Open {
                span: *span,
                parent: *parent,
                name: name@,
                kind: *kind,
                time: *time,
            },
            SpanOp::Close { span, time } => OpV::Close { span: *span, time: *time },
            SpanOp::Event { span, name, kind, time, fields } => OpV::Event {
                span: *span,
                name: name@,
                kind: *kind,
                time: *time,
                fields: fields@.map_values(|s: String| s@),
            },
            SpanOp::Flush => OpV::Flush,
        }
    }
}

/// The views of an emitted operation vector.
pub open spec fn ops_view(ops: Seq<SpanOp>) -> Seq<OpV> {
    ops.map_values(|o: SpanOp| o@)
}

/// One message handed from the boundary to the engine. Timestamps are
/// nanoseconds captured when the message was enqueued; the engine uses them
/// for all span and event timing.
#[derive(Debug, Clone)]
pub enum Message {
    BeginActivity(ActivityRecord, u64),
    EndActivity(ActivityId, u64),
    Result(ActivityId, ResultKind, u64, Vec<Field>),
    Terminate,
}

/// Mathematical value of a `Message`.
pub ghost enum MsgV {
    Begin { rec: ActivityRecordV, time: u64 },
    End { id: u64, time: u64 },
    Result { id: u64, kind: ResultKind, time: u64, fields: Seq<FieldV> },
    Terminate,
}

impl View for Message {
    type V = MsgV;

    open spec fn view(&self) -> MsgV {
        match self {
            Message::BeginActivity(rec, time) => MsgV::Begin { rec: rec@, time: *time },
            Message::EndActivity(id, time) => MsgV::End { id: id.0, time: *time },
            Message::Result(id, kind, time, fields) => MsgV::Result {
                id: id.0,
                kind: *kind,
                time: *time,
                fields: fields_view(fields@),
            },
            Message::Terminate => MsgV::Terminate,
        }
    }
}

/// Live state kept for one begun activity. The entry is retained after the
/// activity ends (`open == false`), because a later-starting activity may
/// still name it as a parent.
#[derive(Debug, Clone, Copy, PartialEq, Eq)]
pub struct ActivityData {
    /// The identifier of the activity's own span.
    pub span: u64,
    /// The identifier of the currently open phase sub-span, if any.
    pub phase: Option<u64>,
    /// Whether the activity's span is still open.
    pub open: bool,
}

/// Mathematical state of the engine.
#[verifier::ext_equal]
pub ghost struct MapModel {
    /// Current entry per activity id (retained after the activity ends).
    pub m: Map<u64, ActivityData>,
    /// Activity ids in begin order (an id repeats if begun twice).
    pub order: Seq<u64>,
    /// Entries displaced by a duplicate begin while still open; their spans
    /// are closed at shutdown.
    pub orphans: Seq<ActivityData>,
    /// The next unused span identifier.
    pub next_span: u64,
    /// Whether the shutdown sequence has run.
    pub terminated: bool,
}

/// True when entry `e` keeps span `z` open: either the activity's own span
/// while the activity is open, or its current phase span.
pub open spec fn data_holds(e: ActivityData, z: u64) -> bool {
    (e.open && e.span == z) || e.phase == Some(z)
}

/// Bounds and shape of one entry: span identifiers were allocated below
/// `next_span`, the root id is never an activity span, and only an open
/// activity can have an open phase.
pub open spec fn data_wf(e: ActivityData, next_span: u64) -> bool {
    &&& 1 <= e.span < next_span
    &&& match e.phase {
        Some(p) => 1 <= p < next_span && p != e.span && e.open,
        None => true,
    }
}

/// No span is kept open by two different entries.
pub open spec fn owners_disjoint(s: MapModel) -> bool {
    &&& forall|id1: u64, id2: u64, z: u64|
        #![trigger data_holds(s.m[id1], z), data_holds(s.m[id2], z)]
        s.m.contains_key(id1) && s.m.contains_key(id2) && id1 != id2 && data_holds(s.m[id1], z)
            ==> !data_holds(s.m[id2], z)
    &&& forall|id: u64, j: int, z: u64|
        #![trigger data_holds(s.m[id], z), data_holds(s.orphans[j], z)]
        s.m.contains_key(id) && 0 <= j < s.orphans.len() && data_holds(s.m[id], z)
            ==> !data_holds(s.orphans[j], z)
    &&& forall|j1: int, j2: int, z: u64|
        #![trigger data_holds(s.orphans[j1], z), data_holds(s.orphans[j2], z)]
        0 <= j1 < s.orphans.len() && 0 <= j2 < s.orphans.len() && j1 != j2
            && data_holds(s.orphans[j1], z) ==> !data_holds(s.orphans[j2], z)
}

/// Well-formedness of the engine state.
pub open spec fn state_wf(s: MapModel) -> bool {
    &&& 1 <= s.next_span
    &&& forall|id: u64| #[trigger] s.m.contains_key(id) ==> data_wf(s.m[id], s.next_span)
    &&& forall|j: int|
        0 <= j < s.orphans.len() ==> data_wf(#[trigger] s.orphans[j], s.next_span)
            && s.orphans[j].open
    &&& forall|id: u64| #[trigger] s.m.contains_key(id) ==> s.order.contains(id)
    &&& owners_disjoint(s)
}

/// The engine state before any message: no activities, the root span (0)
/// open, span 1 the next to allocate.
pub open spec fn init_state() -> MapModel {
    MapModel {
        m: Map::empty(),
        order: Seq::empty(),
        orphans: Seq::empty(),
        next_span: 1,
        terminated: false,
    }
}

/// The single operation emitted at engine start: open the root span.
pub open spec fn init_emit(root_name: Seq<char>, time: u64) -> Seq<OpV> {
    seq![OpV::Open { span: root_span(), parent: None, name: root_name, kind: None, time }]
}

/// The span a begin message's parent reference resolves to: the root span
/// when no parent is named or the named parent was never begun, else the
/// parent's own span (whether or not the parent already ended).
pub open spec fn resolve_parent(s: MapModel, parent: Option<u64>) -> u64 {
    match parent {
        None => root_span(),
        Some(p) => if s.m.contains_key(p) {
            s.m[p].span
        } else {
            root_span()
        },
    }
}

/// State after a begin message: a fresh span is allocated for the activity
/// and the entry is keyed by its id, last write winning. An entry displaced
/// while still open moves to the orphan list so shutdown can close it.
pub open spec fn begin_step(s: MapModel, rec: ActivityRecordV) -> MapModel {
    MapModel {
        m: s.m.insert(rec.id, ActivityData { span: s.next_span, phase: None, open: true }),
        order: s.order.push(rec.id),
        orphans: if s.m.contains_key(rec.id) && s.m[rec.id].open {
            s.orphans.push(s.m[rec.id])
        } else {
            s.orphans
        },
        next_span: (s.next_span + 1) as u64,
        terminated: s.terminated,
    }
}

/// Operations emitted for a begin message: exactly one span opening, under
/// the resolved parent, named by the record, timed at the message's
/// timestamp, carrying the activity kind.
pub open spec fn begin_emit(s: MapModel, rec: ActivityRecordV, time: u64) -> Seq<OpV> {
    seq![
        OpV::Open {
            span: s.next_span,
            parent: Some(resolve_parent(s, rec.parent)),
            name: rec.name,
            kind: Some(rec.kind),
            time,
        },
    ]
}

/// True for the result kinds whose first field is a human-readable log
/// line that becomes the event's name.
pub open spec fn is_log_line(kind: ResultKind) -> bool {
    kind == ResultKind::BuildLogLine || kind == ResultKind::PostBuildLogLine
}

/// The name of a phase sub-span: the display form of the first field, or a
/// fixed placeholder when the event carries no fields.
pub open spec fn phase_name_chars(fields: Seq<FieldV>) -> Seq<char> {
    if fields.len() > 0 {
        field_chars(fields[0])
    } else {
        "no phase"@
    }
}

/// The message text of a log-line event: the display form of the first
/// field, or a fixed placeholder when the event carries no fields.
pub open spec fn log_message_chars(fields: Seq<FieldV>) -> Seq<char> {
    if fields.len() > 0 {
        field_chars(fields[0])
    } else {
        "(no message)"@
    }
}

/// The name of the event a result message attaches: the log text for
/// log-line kinds, else the kind's own name.
pub open spec fn event_name_chars(kind: ResultKind, fields: Seq<FieldV>) -> Seq<char> {
    if is_log_line(kind) {
        log_message_chars(fields)
    } else {
        result_kind_label(kind)
    }
}

/// State after a result message. Only a phase change alters state: the
/// activity's phase becomes a fresh span. Results for an id that was never
/// begun, or whose activity already ended, change nothing.
pub open spec fn result_step(s: MapModel, id: u64, kind: ResultKind) -> MapModel {
    if s.m.contains_key(id) && s.m[id].open && kind == ResultKind::SetPhase {
        MapModel {
            m: s.m.insert(
                id,
                ActivityData { span: s.m[id].span, phase: Some(s.next_span), open: true },
            ),
            order: s.order,
            orphans: s.orphans,
            next_span: (s.next_span + 1) as u64,
            terminated: s.terminated,
        }
    } else {
        s
    }
}

/// Operations emitted for a result message. A phase change first closes the
/// previous phase span, if one is open, at this event's timestamp, then
/// opens the new phase span at the same timestamp, so phase spans never
/// overlap. Every other kind attaches one event to the activity's span.
/// Results for an unknown or already-ended activity emit nothing.
pub open spec fn result_emit(
    s: MapModel,
    id: u64,
    kind: ResultKind,
    time: u64,
    fields: Seq<FieldV>,
) -> Seq<OpV> {
    if s.m.contains_key(id) && s.m[id].open {
        let e = s.m[id];
        if kind == ResultKind::SetPhase {
            let open_op = OpV::Open {
                span: s.next_span,
                parent: Some(e.span),
                name: phase_name_chars(fields),
                kind: None,
                time,
            };
            match e.phase {
                Some(p) => seq![OpV::Close { span: p, time }, open_op],
                None => seq![open_op],
            }
        } else {
            seq![
                OpV::Event {
                    span: e.span,
                    name: event_name_chars(kind, fields),
                    kind,
                    time,
                    fields: fields_chars(fields),
                },
            ]
        }
    } else {
        Seq::empty()
    }
}

/// State after an end message: the activity's entry is marked closed with
/// no open phase, but is retained for later parent lookups. Ending an
/// unknown or already-ended activity changes nothing.
pub open spec fn end_step(s: MapModel, id: u64) -> MapModel {
    if s.m.contains_key(id) && s.m[id].open {
        MapModel {
            m: s.m.insert(id, ActivityData { span: s.m[id].span, phase: None, open: false }),
            order: s.order,
            orphans: s.orphans,
            next_span: s.next_span,
            terminated: s.terminated,
        }
    } else {
        s
    }
}

/// Operations emitted for an end message: the open phase span, if any,
/// closes first, then the activity's span, both at the end timestamp.
/// Ending an unknown or already-ended activity emits nothing.
pub open spec fn end_emit(s: MapModel, id: u64, time: u64) -> Seq<OpV> {
    if s.m.contains_key(id) && s.m[id].open {
        let e = s.m[id];
        match e.phase {
            Some(p) => seq![OpV::Close { span: p, time }, OpV::Close { span: e.span, time }],
            None => seq![OpV::Close { span: e.span, time }],
        }
    } else {
        Seq::empty()
    }
}

/// Every span a well-formed entry keeps open was allocated below
/// `next_span`.
pub proof fn lemma_data_holds_below(e: ActivityData, next_span: u64, z: u64)
    requires
        data_wf(e, next_span),
        data_holds(e, z),
    ensures
        z < next_span,
{
}

/// A begin message preserves well-formedness: the fresh entry keeps only
/// the fresh span open, a displaced entry keeps exactly the spans it
/// already owned, and everything else is untouched.
pub proof fn lemma_begin_wf(s: MapModel, rec: ActivityRecordV)
    requires
        state_wf(s),
        s.next_span < u64::MAX,
    ensures
        state_wf(begin_step(s, rec)),
{
    let s1 = begin_step(s, rec);
    let ns = s.next_span;
    let fresh = ActivityData { span: ns, phase: None, open: true };
    assert forall|id: u64| #[trigger] s1.m.contains_key(id) implies data_wf(
        s1.m[id],
        s1.next_span,
    ) by {
        if id != rec.id {
            assert(s.m.contains_key(id));
        }
    }
    assert forall|j: int| 0 <= j < s1.orphans.len() implies data_wf(
        #[trigger] s1.orphans[j],
        s1.next_span,
    ) && s1.orphans[j].open by {
        if j < s.orphans.len() {
            assert(data_wf(s.orphans[j], ns));
        } else {
            assert(s1.orphans[j] == s.m[rec.id]);
        }
    }
    assert forall|id: u64| #[trigger] s1.m.contains_key(id) implies s1.order.contains(id) by {
        if id == rec.id {
            assert(s1.order[s1.order.len() - 1] == id);
        } else {
            assert(s.order.contains(id));
            let k = choose|k: int| 0 <= k < s.order.len() && s.order[k] == id;
            assert(s1.order[k] == id);
        }
    }
    assert forall|id1: u64, id2: u64, z: u64|
        s1.m.contains_key(id1) && s1.m.contains_key(id2) && id1 != id2 && #[trigger] data_holds(
            s1.m[id1],
            z,
        ) implies !(#[trigger] data_holds(s1.m[id2], z)) by {
        if data_holds(s1.m[id2], z) {
            if id1 == rec.id {
                assert(z == ns);
                lemma_data_holds_below(s.m[id2], ns, z);
            } else if id2 == rec.id {
                assert(z == ns);
                lemma_data_holds_below(s.m[id1], ns, z);
            } else {
                assert(data_holds(s.m[id1], z) && data_holds(s.m[id2], z));
            }
        }
    }
    assert forall|id: u64, j: int, z: u64|
        s1.m.contains_key(id) && 0 <= j < s1.orphans.len() && #[trigger] data_holds(
            s1.m[id],
            z,
        ) implies !(#[trigger] data_holds(s1.orphans[j], z)) by {
        if data_holds(s1.orphans[j], z) {
            if j < s.orphans.len() {
                lemma_data_holds_below(s.orphans[j], ns, z);
                if id == rec.id {
                    assert(z == ns);
                } else {
                    assert(data_holds(s.m[id], z) && data_holds(s.orphans[j], z));
                }
            } else {
                assert(s1.orphans[j] == s.m[rec.id]);
                lemma_data_holds_below(s.m[rec.id], ns, z);
                if id == rec.id {
                    assert(z == ns);
                } else {
                    assert(data_holds(s.m[id], z) && data_holds(s.m[rec.id], z));
                }
            }
        }
    }
    assert forall|j1: int, j2: int, z: u64|
        0 <= j1 < s1.orphans.len() && 0 <= j2 < s1.orphans.len() && j1 != j2
            && #[trigger] data_holds(s1.orphans[j1], z) implies !(#[trigger] data_holds(
        s1.orphans[j2],
        z,
    )) by {
        if data_holds(s1.orphans[j2], z) {
            if j1 < s.orphans.len() && j2 < s.orphans.len() {
                assert(data_holds(s.orphans[j1], z) && data_holds(s.orphans[j2], z));
            } else if j1 < s.orphans.len() {
                assert(s1.orphans[j2] == s.m[rec.id]);
                assert(data_holds(s.m[rec.id], z) && data_holds(s.orphans[j1], z));
            } else {
                assert(s1.orphans[j1] == s.m[rec.id]);
                assert(data_holds(s.m[rec.id], z) && data_holds(s.orphans[j2], z));
            }
        }
    }
}

/// A result message preserves well-formedness: a phase change makes the
/// activity's entry own the fresh phase span instead of the one it closes,
/// and no other kind changes state at all.
pub proof fn lemma_result_wf(s: MapModel, id: u64, kind: ResultKind)
    requires
        state_wf(s),
        s.next_span < u64::MAX,
    ensures
        state_wf(result_step(s, id, kind)),
{
    let s1 = result_step(s, id, kind);
    if s.m.contains_key(id) && s.m[id].open && kind == ResultKind::SetPhase {
        let ns = s.next_span;
        let e0 = s.m[id];
        let e1 = ActivityData { span: e0.span, phase: Some(ns), open: true };
        assert forall|k: u64| #[trigger] s1.m.contains_key(k) implies data_wf(
            s1.m[k],
            s1.next_span,
        ) by {
            if k != id {
                assert(s.m.contains_key(k));
            }
        }
        assert forall|k: u64| #[trigger] s1.m.contains_key(k) implies s1.order.contains(k) by {
            assert(s.m.contains_key(k));
        }
        assert forall|z: u64| #[trigger] data_holds(e1, z) && z != ns implies data_holds(
            e0,
            z,
        ) by {}
        assert forall|id1: u64, id2: u64, z: u64|
            s1.m.contains_key(id1) && s1.m.contains_key(id2) && id1 != id2
                && #[trigger] data_holds(s1.m[id1], z) implies !(#[trigger] data_holds(
            s1.m[id2],
            z,
        )) by {
            if data_holds(s1.m[id2], z) {
                if id1 == id {
                    if z == ns {
                        lemma_data_holds_below(s.m[id2], ns, z);
                    } else {
                        assert(data_holds(s.m[id1], z) && data_holds(s.m[id2], z));
                    }
                } else if id2 == id {
                    if z == ns {
                        lemma_data_holds_below(s.m[id1], ns, z);
                    } else {
                        assert(data_holds(s.m[id1], z) && data_holds(s.m[id2], z));
                    }
                } else {
                    assert(data_holds(s.m[id1], z) && data_holds(s.m[id2], z));
                }
            }
        }
        assert forall|k: u64, j: int, z: u64|
            s1.m.contains_key(k) && 0 <= j < s1.orphans.len() && #[trigger] data_holds(
                s1.m[k],
                z,
            ) implies !(#[trigger] data_holds(s1.orphans[j], z)) by {
            if data_holds(s1.orphans[j], z) {
                lemma_data_holds_below(s.orphans[j], ns, z);
                if k == id {
                    assert(data_holds(s.m[k], z) && data_holds(s.orphans[j], z));
                } else {
                    assert(data_holds(s.m[k], z) && data_holds(s.orphans[j], z));
                }
            }
        }
    }
}

/// An end message preserves well-formedness: the closed entry keeps no
/// span open any more, so every ownership claim only shrinks.
pub proof fn lemma_end_wf(s: MapModel, id: u64)
    requires
        state_wf(s),
    ensures
        state_wf(end_step(s, id)),
{
    let s1 = end_step(s, id);
    if s.m.contains_key(id) && s.m[id].open {
        assert forall|k: u64| #[trigger] s1.m.contains_key(k) implies data_wf(
            s1.m[k],
            s1.next_span,
        ) && s1.order.contains(k) by {
            assert(s.m.contains_key(k));
        }
        assert forall|id1: u64, id2: u64, z: u64|
            s1.m.contains_key(id1) && s1.m.contains_key(id2) && id1 != id2
                && #[trigger] data_holds(s1.m[id1], z) implies !(#[trigger] data_holds(
            s1.m[id2],
            z,
        )) by {
            if data_holds(s1.m[id2], z) {
                assert(data_holds(s.m[id1], z) && data_holds(s.m[id2], z));
            }
        }
        assert forall|k: u64, j: int, z: u64|
            s1.m.contains_key(k) && 0 <= j < s1.orphans.len() && #[trigger] data_holds(
                s1.m[k],
                z,
            ) implies !(#[trigger] data_holds(s1.orphans[j], z)) by {
            if data_holds(s1.orphans[j], z) {
                assert(data_holds(s.m[k], z) && data_holds(s.orphans[j], z));
            }
        }
    }
}

/// The state transition for one non-terminate message.
pub open spec fn step(s: MapModel, msg: MsgV) -> MapModel {
    match msg {
        MsgV::Begin { rec, time } => begin_step(s, rec),
        MsgV::End { id, time } => end_step(s, id),
        MsgV::Result { id, kind, time, fields } => result_step(s, id, kind),
        MsgV::Terminate => s,
    }
}

/// The operations emitted for one non-terminate message.
pub open spec fn emit(s: MapModel, msg: MsgV) -> Seq<OpV> {
    match msg {
        MsgV::Begin { rec, time } => begin_emit(s, rec, time),
        MsgV::End { id, time } => end_emit(s, id, time),
        MsgV::Result { id, kind, time, fields } => result_emit(s, id, kind, time, fields),
        MsgV::Terminate => Seq::empty(),
    }
}

/// The closing operations for one entry at shutdown: nothing if the
/// activity already ended, else its open phase span first, then its own
/// span, all at the shutdown timestamp.
pub open spec fn close_data_emit(e: ActivityData, time: u64) -> Seq<OpV> {
    if e.open {
        match e.phase {
            Some(p) => seq![
                OpV::Close { span: p, time },
                OpV::Close { span: e.span, time },
            ],
            None => seq![OpV::Close { span: e.span, time }],
        }
    } else {
        Seq::empty()
    }
}

/// The closing operations for the displaced entries, in displacement order.
pub open spec fn close_orphans_emit(orphans: Seq<ActivityData>, time: u64) -> Seq<OpV>
    decreases orphans.len(),
{
    if orphans.len() == 0 {
        Seq::empty()
    } else {
        close_orphans_emit(orphans.drop_last(), time) + close_data_emit(orphans.last(), time)
    }
}

/// The closing operations for the tracked activities, visited in begin
/// order; an id already visited (a duplicate begin) is skipped.
pub open spec fn drain_emit(m: Map<u64, ActivityData>, order: Seq<u64>, time: u64) -> Seq<OpV>
    decreases order.len(),
{
    if order.len() == 0 {
        Seq::empty()
    } else {
        let id = order[0];
        if m.contains_key(id) {
            close_data_emit(m[id], time) + drain_emit(m.remove(id), order.drop_first(), time)
        } else {
            drain_emit(m, order.drop_first(), time)
        }
    }
}

/// The engine state after shutdown: nothing tracked, nothing open.
pub open spec fn terminate_state(s: MapModel) -> MapModel {
    MapModel {
        m: Map::empty(),
        order: Seq::empty(),
        orphans: Seq::empty(),
        next_span: s.next_span,
        terminated: true,
    }
}

/// The operations emitted at shutdown: close every span still open (first
/// the displaced entries, then the tracked activities in begin order), then
/// close the root span, then force a flush — in exactly that order, so the
/// flush sees every span closed.
pub open spec fn terminate_emit(s: MapModel, time: u64) -> Seq<OpV> {
    close_orphans_emit(s.orphans, time) + drain_emit(s.m, s.order, time) + seq![
        OpV::Close { span: root_span(), time },
        OpV::Flush,
    ]
}

/// Append the closing operations for one entry.
fn close_data(e: ActivityData, time: u64, ops: &mut Vec<SpanOp>)
    ensures
        ops_view(final(ops)@) == ops_view(old(ops)@) + close_data_emit(e, time),
{
    if e.open {
        match e.phase {
            Some(p) => ops.push(SpanOp::Close { span: p, time }),
            None => (),
        }
        ops.push(SpanOp::Close { span: e.span, time });
    }
    proof {
        assert(ops_view(ops@) =~= ops_view(old(ops)@) + close_data_emit(e, time));
    }
}

/// The engine: a map from activity identifier to live span state, the
/// begin order and displaced entries needed for a total shutdown, and the
/// span-identifier allocator.
pub struct SpanMap {
    pub map: HashMap<u64, ActivityData>,
    pub order: Vec<u64>,
    pub orphans: Vec<ActivityData>,
    pub next_span: u64,
    pub terminated: bool,
}

impl View for SpanMap {
    type V = MapModel;

    open spec fn view(&self) -> MapModel {
        MapModel {
            m: self.map@,
            order: self.order@,
            orphans: self.orphans@,
            next_span: self.next_span,
            terminated: self.terminated,
        }
    }
}

impl SpanMap {
    /// Well-formedness of the engine.
    pub open spec fn wf(&self) -> bool {
        state_wf(self@)
    }

    /// Create the engine for one run. Emits the opening of the root span,
    /// named for the run and started at `time`.
    pub fn new(root_name: String, time: u64) -> (r: (SpanMap, Vec<SpanOp>))
        ensures
            r.0@ == init_state(),
            r.0.wf(),
            !r.0@.terminated,
            ops_view(r.1@) == init_emit(root_name@, time),
    {
        let engine = SpanMap {
            map: HashMap::new(),
            order: Vec::new(),
            orphans: Vec::new(),
            next_span: 1,
            terminated: false,
        };
        let mut ops: Vec<SpanOp> = Vec::new();
        ops.push(
            SpanOp::Open { span: 0, parent: None, name: root_name, kind: None, time },
        );
        proof {
            assert(engine@ =~= init_state());
            assert(ops_view(ops@) =~= init_emit(root_name@, time));
        }
        (engine, ops)
    }

    /// Process a begin message: resolve the parent (falling back to the
    /// root span), open a fresh span for the activity, and record it under
    /// its id, last write winning on a duplicate begin.
    pub fn begin(&mut self, record: ActivityRecord, start_time: u64) -> (r: Vec<SpanOp>)
        requires
            old(self).wf(),
            !old(self)@.terminated,
            old(self).next_span < u64::MAX,
        ensures
            final(self)@ == begin_step(old(self)@, record@),
            final(self).wf(),
            !final(self)@.terminated,
            ops_view(r@) == begin_emit(old(self)@, record@, start_time),
    {
        let id = record.id.0;
        let parent_span: u64 = match record.parent {
            None => 0,
            Some(p) => match self.map.get(&p.0) {
                Some(e) => e.span,
                None => 0,
            },
        };
        match self.map.get(&id) {
            Some(e) => {
                let prev = *e;
                if prev.open {
                    self.orphans.push(prev);
                }
            },
            None => (),
        }
        let span = self.next_span;
        self.map.insert(id, ActivityData { span, phase: None, open: true });
        self.order.push(id);
        self.next_span = span + 1;
        let mut ops: Vec<SpanOp> = Vec::new();
        ops.push(
            SpanOp::Open {
                span,
                parent: Some(parent_span),
                name: record.name,
                kind: Some(record.kind),
                time: start_time,
            },
        );
        proof {
            assert(self@ =~= begin_step(old(self)@, record@));
            assert(ops_view(ops@) =~= begin_emit(old(self)@, record@, start_time));
            lemma_begin_wf(old(self)@, record@);
        }
        ops
    }

    /// Process a result message for activity `act`. A result for an id that
    /// was never begun, or whose activity already ended, is silently
    /// ignored. A phase change replaces the open phase span, closing the
    /// old one at this event's timestamp; every other kind attaches one
    /// event to the activity's span.
    pub fn result(&mut self, act: ActivityId, kind: ResultKind, time: u64, fields: Vec<Field>)
        -> (r: Vec<SpanOp>)
        requires
            old(self).wf(),
            !old(self)@.terminated,
            old(self).next_span < u64::MAX,
        ensures
            final(self)@ == result_step(old(self)@, act.0, kind),
            final(self).wf(),
            !final(self)@.terminated,
            ops_view(r@) == result_emit(old(self)@, act.0, kind, time, fields_view(fields@)),
    {
        let mut ops: Vec<SpanOp> = Vec::new();
        let entry = match self.map.get(&act.0) {
            Some(e) => *e,
            None => {
                proof {
                    assert(ops_view(ops@) =~= result_emit(
                        old(self)@,
                        act.0,
                        kind,
                        time,
                        fields_view(fields@),
                    ));
                }
                return ops;
            },
        };
        if !entry.open {
            proof {
                assert(ops_view(ops@) =~= result_emit(
                    old(self)@,
                    act.0,
                    kind,
                    time,
                    fields_view(fields@),
                ));
            }
            return ops;
        }
        match kind {
            ResultKind::SetPhase => {
                match entry.phase {
                    Some(p) => ops.push(SpanOp::Close { span: p, time }),
                    None => (),
                }
                let name = if fields.len() > 0 {
                    field_string(&fields[0])
                } else {
                    "no phase".to_owned()
                };
                let span = self.next_span;
                ops.push(
                    SpanOp::Open { span, parent: Some(entry.span), name, kind: None, time },
                );
                self.map.insert(
                    act.0,
                    ActivityData { span: entry.span, phase: Some(span), open: true },
                );
                self.next_span = span + 1;
                proof {
                    assert(fields_view(fields@).len() == fields@.len());
                    if fields@.len() > 0 {
                        assert(fields_view(fields@)[0] == fields@[0]@);
                    }
                    assert(self@ =~= result_step(old(self)@, act.0, kind));
                    assert(ops_view(ops@) =~= result_emit(
                        old(self)@,
                        act.0,
                        kind,
                        time,
                        fields_view(fields@),
                    ));
                    lemma_result_wf(old(self)@, act.0, kind);
                }
            },
            _ => {
                let name = if matches!(kind, ResultKind::BuildLogLine)
                    || matches!(kind, ResultKind::PostBuildLogLine) {
                    if fields.len() > 0 {
                        field_string(&fields[0])
                    } else {
                        "(no message)".to_owned()
                    }
                } else {
                    kind.label()
                };
                let rendered = field_strings(&fields);
                ops.push(
                    SpanOp::Event { span: entry.span, name, kind, time, fields: rendered },
                );
                proof {
                    assert(fields_view(fields@).len() == fields@.len());
                    if fields@.len() > 0 {
                        assert(fields_view(fields@)[0] == fields@[0]@);
                    }
                    assert(ops_view(ops@)[0]->Event_fields =~= fields_chars(
                        fields_view(fields@),
                    ));
                    assert(self@ =~= result_step(old(self)@, act.0, kind));
                    assert(ops_view(ops@) =~= result_emit(
                        old(self)@,
                        act.0,
                        kind,
                        time,
                        fields_view(fields@),
                    ));
                }
            },
        }
        ops
    }

    /// Process an end message for activity `act`: close the open phase
    /// span, if any, then the activity's own span, both at the end
    /// timestamp. The entry is retained for later parent lookups. Ending an
    /// unknown or already-ended activity is silently ignored.
    pub fn end(&mut self, act: ActivityId, end_time: u64) -> (r: Vec<SpanOp>)
        requires
            old(self).wf(),
            !old(self)@.terminated,
        ensures
            final(self)@ == end_step(old(self)@, act.0),
            final(self).wf(),
            !final(self)@.terminated,
            ops_view(r@) == end_emit(old(self)@, act.0, end_time),
    {
        let mut ops: Vec<SpanOp> = Vec::new();
        let entry = match self.map.get(&act.0) {
            Some(e) => *e,
            None => {
                proof {
                    assert(ops_view(ops@) =~= end_emit(old(self)@, act.0, end_time));
                }
                return ops;
            },
        };
        if !entry.open {
            proof {
                assert(ops_view(ops@) =~= end_emit(old(self)@, act.0, end_time));
            }
            return ops;
        }
        match entry.phase {
            Some(p) => ops.push(SpanOp::Close { span: p, time: end_time }),
            None => (),
        }
        ops.push(SpanOp::Close { span: entry.span, time: end_time });
        self.map.insert(act.0, ActivityData { span: entry.span, phase: None, open: false });
        proof {
            assert(self@ =~= end_step(old(self)@, act.0));
            assert(ops_view(ops@) =~= end_emit(old(self)@, act.0, end_time));
            lemma_end_wf(old(self)@, act.0);
        }
        ops
    }

    /// Dispatch one dequeued message to the engine. The terminate sentinel
    /// is not a per-message event: the consumer loop handles it by calling
    /// `terminate` instead.
    pub fn process_message(&mut self, message: Message) -> (r: Vec<SpanOp>)
        requires
            old(self).wf(),
            !old(self)@.terminated,
            old(self).next_span < u64::MAX,
            !(message is Terminate),
        ensures
            final(self)@ == step(old(self)@, message@),
            final(self).wf(),
            !final(self)@.terminated,
            ops_view(r@) == emit(old(self)@, message@),
    {
        match message {
            Message::BeginActivity(rec, time) => self.begin(rec, time),
            Message::EndActivity(id, time) => self.end(id, time),
            Message::Result(id, kind, time, fields) => self.result(id, kind, time, fields),
            Message::Terminate => {
                proof {
                    assert(false);
                }
                Vec::new()
            },
        }
    }

    /// The consumer's decision for one dequeued item: a closed channel
    /// (`None`) or the terminate sentinel runs the shutdown sequence at
    /// `now` and reports that consumption is over (`true`); any other
    /// message is processed with its own timestamp and consumption goes on
    /// (`false`). Either way the returned operations are to be carried out
    /// in order.
    pub fn consume(&mut self, item: Option<Message>, now: u64) -> (r: (bool, Vec<SpanOp>))
        requires
            old(self).wf(),
            !old(self)@.terminated,
            old(self).next_span < u64::MAX,
        ensures
            final(self).wf(),
            match item {
                None => r.0,
                Some(m) => r.0 == (m is Terminate),
            },
            r.0 ==> final(self)@ == terminate_state(old(self)@) && ops_view(r.1@)
                == terminate_emit(old(self)@, now),
            !r.0 ==> match item {
                Some(m) => final(self)@ == step(old(self)@, m@) && ops_view(r.1@) == emit(
                    old(self)@,
                    m@,
                ) && !final(self)@.terminated,
                None => false,
            },
    {
        match item {
            None => (true, self.terminate(now)),
            Some(Message::Terminate) => (true, self.terminate(now)),
            Some(m) => (false, self.process_message(m)),
        }
    }

    /// Run the shutdown sequence: close every span that is still open
    /// (displaced entries first, then tracked activities in begin order),
    /// close the root span, and force a final flush, all at `time`. After
    /// this the engine accepts no further messages.
    pub fn terminate(&mut self, time: u64) -> (r: Vec<SpanOp>)
        requires
            old(self).wf(),
            !old(self)@.terminated,
        ensures
            final(self)@ == terminate_state(old(self)@),
            final(self).wf(),
            final(self)@.terminated,
            ops_view(r@) == terminate_emit(old(self)@, time),
    {
        let ghost s0 = self@;
        let mut ops: Vec<SpanOp> = Vec::new();
        // Entries displaced by a duplicate begin still own open spans.
        let mut j: usize = 0;
        while j < self.orphans.len()
            invariant
                j <= self.orphans.len(),
                self@ == s0,
                ops_view(ops@) == close_orphans_emit(s0.orphans.take(j as int), time),
            decreases self.orphans.len() - j,
        {
            let e = self.orphans[j];
            close_data(e, time, &mut ops);
            j += 1;
            proof {
                let taken = s0.orphans.take(j as int);
                assert(taken.drop_last() =~= s0.orphans.take(j - 1));
                assert(taken.last() == s0.orphans[j - 1]);
            }
        }
        proof {
            assert(s0.orphans.take(s0.orphans.len() as int) =~= s0.orphans);
            assert(s0.order.skip(0) =~= s0.order);
            assert forall|id: u64| #[trigger] self.map@.contains_key(id)
                implies s0.order.skip(0).contains(id) by {
                assert(s0.m.contains_key(id));
                assert(s0.order.contains(id));
            }
        }
        // Close every still-open activity, in begin order; an id begun
        // twice is visited once, at its first position.
        let mut i: usize = 0;
        while i < self.order.len()
            invariant
                i <= self.order.len(),
                self.order@ == s0.order,
                self.orphans@ == s0.orphans,
                self.next_span == s0.next_span,
                self.terminated == s0.terminated,
                ops_view(ops@) + drain_emit(self.map@, s0.order.skip(i as int), time)
                    == close_orphans_emit(s0.orphans, time) + drain_emit(s0.m, s0.order, time),
                forall|id: u64| #[trigger]
                    self.map@.contains_key(id) ==> s0.order.skip(i as int).contains(id),
            decreases self.order.len() - i,
        {
            let id = self.order[i];
            let ghost mcur = self.map@;
            let ghost rest = s0.order.skip(i as int);
            let ghost ops_before = ops@;
            proof {
                assert(rest[0] == s0.order[i as int]);
                assert(rest.drop_first() =~= s0.order.skip(i as int + 1));
            }
            match self.map.remove(&id) {
                Some(e) => close_data(e, time, &mut ops),
                None => (),
            }
            i += 1;
            proof {
                let rhs = close_orphans_emit(s0.orphans, time) + drain_emit(s0.m, s0.order, time);
                if mcur.contains_key(id) {
                    assert(drain_emit(mcur, rest, time) == close_data_emit(mcur[id], time)
                        + drain_emit(mcur.remove(id), rest.drop_first(), time));
                    assert(self.map@ == mcur.remove(id));
                    assert(ops_view(ops@) =~= ops_view(ops_before) + close_data_emit(
                        mcur[id],
                        time,
                    ));
                    assert(ops_view(ops@) + drain_emit(self.map@, rest.drop_first(), time)
                        =~= ops_view(ops_before) + drain_emit(mcur, rest, time));
                    assert(ops_view(ops@) + drain_emit(self.map@, s0.order.skip(i as int), time)
                        =~= rhs);
                } else {
                    assert(self.map@ == mcur);
                    assert(drain_emit(mcur, rest, time) == drain_emit(
                        mcur,
                        rest.drop_first(),
                        time,
                    ));
                    assert(ops_view(ops@) + drain_emit(self.map@, s0.order.skip(i as int), time)
                        =~= rhs);
                }
                assert forall|id2: u64| #[trigger] self.map@.contains_key(id2)
                    implies s0.order.skip(i as int).contains(id2) by {
                    assert(mcur.contains_key(id2));
                    assert(rest.contains(id2));
                    let k = choose|k: int| 0 <= k < rest.len() && rest[k] == id2;
                    assert(id2 != id);
                    assert(s0.order.skip(i as int)[k - 1] == id2);
                }
            }
        }
        proof {
            assert(s0.order.skip(s0.order.len() as int) =~= Seq::<u64>::empty());
            assert(self.map@ =~= Map::<u64, ActivityData>::empty());
        }
        // Close the root span, then force the export pipeline to flush:
        // the flush sees every span of the run closed.
        ops.push(SpanOp::Close { span: 0, time });
        ops.push(SpanOp::Flush);
        self.order.clear();
        self.orphans.clear();
        self.terminated = true;
        proof {
            assert(self@ =~= terminate_state(s0));
            assert(ops_view(ops@) =~= terminate_emit(s0, time));
        }
        ops
    }
}

} // verus!
