//! Run-level guarantees of the span lifecycle engine, proved over the
//! mathematical transition functions that the engine's methods are specified
//! against: every span opened in a run is opened once and closed exactly
//! once, unknown ids are no-ops, phase spans never overlap, parent
//! resolution falls back to the root, and shutdown is total.

use vstd::prelude::*;

use crate::activity::ActivityRecordV;
use crate::engine::{
    ActivityData, MapModel, MsgV, OpV, begin_emit, begin_step, close_data_emit,
    close_orphans_emit, data_holds, data_wf, drain_emit, emit, end_emit, end_step, init_emit,
    init_state, lemma_begin_wf, lemma_data_holds_below, lemma_end_wf, lemma_result_wf,
    resolve_parent,
    result_emit, result_step, root_span, state_wf, step, terminate_emit, terminate_state,
};
use crate::activity::{FieldV, ResultKind};

verus! {

/// True when `op` opens span `z`.
pub open spec fn op_opens(op: OpV, z: u64) -> bool {
    op matches OpV::Open { span, .. } && span == z
}

/// True when `op` closes span `z`.
pub open spec fn op_closes(op: OpV, z: u64) -> bool {
    op matches OpV::Close { span, .. } && span == z
}

/// How many operations of `log` open span `z`.
pub open spec fn count_opens(log: Seq<OpV>, z: u64) -> nat
    decreases log.len(),
{
    if log.len() == 0 {
        0
    } else {
        count_opens(log.drop_last(), z) + if op_opens(log.last(), z) {
            1nat
        } else {
            0nat
        }
    }
}

/// How many operations of `log` close span `z`.
pub open spec fn count_closes(log: Seq<OpV>, z: u64) -> nat
    decreases log.len(),
{
    if log.len() == 0 {
        0
    } else {
        count_closes(log.drop_last(), z) + if op_closes(log.last(), z) {
            1nat
        } else {
            0nat
        }
    }
}

/// Counting distributes over concatenation.
pub proof fn lemma_count_concat(a: Seq<OpV>, b: Seq<OpV>, z: u64)
    ensures
        count_opens(a + b, z) == count_opens(a, z) + count_opens(b, z),
        count_closes(a + b, z) == count_closes(a, z) + count_closes(b, z),
    decreases b.len(),
{
    if b.len() == 0 {
        assert(a + b =~= a);
    } else {
        lemma_count_concat(a, b.drop_last(), z);
        assert((a + b).drop_last() =~= a + b.drop_last());
        assert((a + b).last() == b.last());
    }
}

/// The counts of a one-operation log.
pub proof fn lemma_count_singleton(op: OpV, z: u64)
    ensures
        count_opens(seq![op], z) == if op_opens(op, z) {
            1nat
        } else {
            0nat
        },
        count_closes(seq![op], z) == if op_closes(op, z) {
            1nat
        } else {
            0nat
        },
{
    assert(seq![op].drop_last() =~= Seq::<OpV>::empty());
    assert(count_opens(Seq::<OpV>::empty(), z) == 0);
    assert(count_closes(Seq::<OpV>::empty(), z) == 0);
}

/// True when `op` closes one of the spans entry `e` keeps open.
pub open spec fn closes_held(e: ActivityData, op: OpV) -> bool {
    op matches OpV::Close { span, .. } && data_holds(e, span)
}

/// True when span `z` is still open in state `s`: the root span until
/// shutdown, and every span some entry — tracked or displaced — keeps open.
pub open spec fn live(s: MapModel, z: u64) -> bool {
    ||| (z == root_span() && !s.terminated)
    ||| (exists|id: u64| #[trigger] s.m.contains_key(id) && data_holds(s.m[id], z))
    ||| (exists|j: int| 0 <= j < s.orphans.len() && data_holds(#[trigger] s.orphans[j], z))
}

/// The engine's central trace invariant, tying a state to the log of all
/// operations emitted so far: spans 0 (root) up to `next_span` (exclusive)
/// have each been opened exactly once and no other span was ever opened;
/// and a span has been closed exactly once if it was opened and is no
/// longer live, and never otherwise.
pub open spec fn trace_inv(s: MapModel, log: Seq<OpV>) -> bool {
    &&& state_wf(s)
    &&& forall|z: u64|
        count_opens(log, z) == if z < s.next_span {
            1nat
        } else {
            0nat
        }
    &&& forall|z: u64|
        count_closes(log, z) == if z < s.next_span && !live(s, z) {
            1nat
        } else {
            0nat
        }
}

/// The invariant holds at engine start: only the root span is open.
pub proof fn lemma_init_trace_inv(root_name: Seq<char>, time: u64)
    ensures
        trace_inv(init_state(), init_emit(root_name, time)),
{
    let s = init_state();
    let log = init_emit(root_name, time);
    assert forall|z: u64|
        count_opens(log, z) == if z < s.next_span {
            1nat
        } else {
            0nat
        } by {
        lemma_count_singleton(log[0], z);
        assert(log.drop_last() =~= Seq::<OpV>::empty());
    }
    assert forall|z: u64|
        count_closes(log, z) == if z < s.next_span && !live(s, z) {
            1nat
        } else {
            0nat
        } by {
        lemma_count_singleton(log[0], z);
        assert(log.drop_last() =~= Seq::<OpV>::empty());
        if z == 0 {
            assert(live(s, z));
        }
    }
}

/// A well-formed entry never keeps the root span open.
pub proof fn lemma_no_entry_holds_root(e: ActivityData, next_span: u64)
    requires
        data_wf(e, next_span),
    ensures
        !data_holds(e, root_span()),
{
}

/// A begin makes exactly the fresh span live, on top of what was live:
/// the displaced entry, if any, moves to the orphan list with every span
/// it kept open.
pub proof fn lemma_begin_live(s: MapModel, rec: ActivityRecordV)
    requires
        state_wf(s),
        s.next_span < u64::MAX,
    ensures
        forall|z: u64| live(begin_step(s, rec), z) <==> (live(s, z) || z == s.next_span),
{
    let s1 = begin_step(s, rec);
    let ns = s.next_span;
    assert forall|z: u64| live(s1, z) <==> (live(s, z) || z == ns) by {
        if live(s1, z) {
            if exists|id: u64| #[trigger] s1.m.contains_key(id) && data_holds(s1.m[id], z) {
                let id = choose|id: u64|
                    #[trigger] s1.m.contains_key(id) && data_holds(s1.m[id], z);
                if id == rec.id {
                    assert(z == ns);
                } else {
                    assert(s.m.contains_key(id) && data_holds(s.m[id], z));
                }
            } else if exists|j: int|
                0 <= j < s1.orphans.len() && data_holds(#[trigger] s1.orphans[j], z) {
                let j = choose|j: int|
                    0 <= j < s1.orphans.len() && data_holds(#[trigger] s1.orphans[j], z);
                if j < s.orphans.len() {
                    assert(data_holds(s.orphans[j], z));
                } else {
                    assert(s1.orphans[j] == s.m[rec.id]);
                    assert(s.m.contains_key(rec.id) && data_holds(s.m[rec.id], z));
                }
            }
        }
        if z == ns {
            assert(s1.m.contains_key(rec.id) && data_holds(s1.m[rec.id], z));
            assert(live(s1, z));
        }
        if live(s, z) {
            if exists|id: u64| #[trigger] s.m.contains_key(id) && data_holds(s.m[id], z) {
                let id = choose|id: u64|
                    #[trigger] s.m.contains_key(id) && data_holds(s.m[id], z);
                if id == rec.id {
                    assert(s.m[rec.id].open);
                    assert(s1.orphans.len() == s.orphans.len() + 1);
                    assert(s1.orphans[s.orphans.len() as int] == s.m[rec.id]);
                    assert(data_holds(s1.orphans[s.orphans.len() as int], z));
                } else {
                    assert(s1.m.contains_key(id) && data_holds(s1.m[id], z));
                }
            } else if exists|j: int|
                0 <= j < s.orphans.len() && data_holds(#[trigger] s.orphans[j], z) {
                let j = choose|j: int|
                    0 <= j < s.orphans.len() && data_holds(#[trigger] s.orphans[j], z);
                assert(s1.orphans[j] == s.orphans[j]);
                assert(data_holds(s1.orphans[j], z));
            }
            assert(live(s1, z));
        }
    }
}

/// A phase change makes the fresh phase span live and the replaced phase
/// span, if any, no longer live; nothing else changes.
pub proof fn lemma_setphase_live(s: MapModel, id: u64)
    requires
        state_wf(s),
        s.next_span < u64::MAX,
        s.m.contains_key(id),
        s.m[id].open,
    ensures
        forall|z: u64|
            live(result_step(s, id, ResultKind::SetPhase), z) <==> ((live(s, z)
                && match s.m[id].phase {
                Some(p) => z != p,
                None => true,
            }) || z == s.next_span),
{
    let s1 = result_step(s, id, ResultKind::SetPhase);
    let ns = s.next_span;
    let e0 = s.m[id];
    assert forall|z: u64|
        live(s1, z) <==> ((live(s, z) && match e0.phase {
            Some(p) => z != p,
            None => true,
        }) || z == ns) by {
        if live(s1, z) {
            if exists|k: u64| #[trigger] s1.m.contains_key(k) && data_holds(s1.m[k], z) {
                let k = choose|k: u64|
                    #[trigger] s1.m.contains_key(k) && data_holds(s1.m[k], z);
                if k == id {
                    if z != ns {
                        assert(data_holds(e0, z));
                        assert(live(s, z));
                        match e0.phase {
                            Some(p) => {
                                assert(z != p);
                            },
                            None => (),
                        }
                    }
                } else {
                    assert(s.m.contains_key(k) && data_holds(s.m[k], z));
                    assert(live(s, z));
                    match e0.phase {
                        Some(p) => {
                            if z == p {
                                assert(data_holds(s.m[id], p));
                                assert(data_holds(s.m[k], p));
                                assert(false);
                            }
                        },
                        None => (),
                    }
                }
            } else if exists|j: int|
                0 <= j < s1.orphans.len() && data_holds(#[trigger] s1.orphans[j], z) {
                let j = choose|j: int|
                    0 <= j < s1.orphans.len() && data_holds(#[trigger] s1.orphans[j], z);
                assert(data_holds(s.orphans[j], z));
                assert(live(s, z));
                match e0.phase {
                    Some(p) => {
                        if z == p {
                            assert(data_holds(s.m[id], p));
                            assert(false);
                        }
                    },
                    None => (),
                }
            }
        }
        if z == ns {
            assert(s1.m.contains_key(id) && data_holds(s1.m[id], z));
            assert(live(s1, z));
        }
        if live(s, z) && match e0.phase {
            Some(p) => z != p,
            None => true,
        } {
            if exists|k: u64| #[trigger] s.m.contains_key(k) && data_holds(s.m[k], z) {
                let k = choose|k: u64|
                    #[trigger] s.m.contains_key(k) && data_holds(s.m[k], z);
                if k == id {
                    assert(e0.open && e0.span == z);
                    assert(s1.m.contains_key(id) && data_holds(s1.m[id], z));
                } else {
                    assert(s1.m.contains_key(k) && data_holds(s1.m[k], z));
                }
            } else if exists|j: int|
                0 <= j < s.orphans.len() && data_holds(#[trigger] s.orphans[j], z) {
                let j = choose|j: int|
                    0 <= j < s.orphans.len() && data_holds(#[trigger] s.orphans[j], z);
                assert(0 <= j < s1.orphans.len() && data_holds(s1.orphans[j], z));
            } else {
                assert(z == root_span() && !s1.terminated);
            }
            assert(live(s1, z));
        }
    }
}

/// Ending an activity makes exactly the spans its entry kept open — its
/// own span and its open phase span, if any — no longer live.
pub proof fn lemma_end_live(s: MapModel, id: u64)
    requires
        state_wf(s),
        s.m.contains_key(id),
        s.m[id].open,
    ensures
        forall|z: u64|
            live(end_step(s, id), z) <==> (live(s, z) && !data_holds(s.m[id], z)),
{
    let s1 = end_step(s, id);
    let e0 = s.m[id];
    assert forall|z: u64| live(s1, z) <==> (live(s, z) && !data_holds(e0, z)) by {
        if live(s1, z) {
            if exists|k: u64| #[trigger] s1.m.contains_key(k) && data_holds(s1.m[k], z) {
                let k = choose|k: u64|
                    #[trigger] s1.m.contains_key(k) && data_holds(s1.m[k], z);
                assert(k != id);
                assert(s.m.contains_key(k) && data_holds(s.m[k], z));
                assert(!data_holds(e0, z));
            } else if exists|j: int|
                0 <= j < s1.orphans.len() && data_holds(#[trigger] s1.orphans[j], z) {
                let j = choose|j: int|
                    0 <= j < s1.orphans.len() && data_holds(#[trigger] s1.orphans[j], z);
                assert(data_holds(s.orphans[j], z));
                assert(!data_holds(e0, z));
            } else {
                assert(z == root_span());
                lemma_no_entry_holds_root(e0, s.next_span);
            }
        }
        if live(s, z) && !data_holds(e0, z) {
            if exists|k: u64| #[trigger] s.m.contains_key(k) && data_holds(s.m[k], z) {
                let k = choose|k: u64|
                    #[trigger] s.m.contains_key(k) && data_holds(s.m[k], z);
                assert(k != id);
                assert(s1.m.contains_key(k) && data_holds(s1.m[k], z));
            } else if exists|j: int|
                0 <= j < s.orphans.len() && data_holds(#[trigger] s.orphans[j], z) {
                let j = choose|j: int|
                    0 <= j < s.orphans.len() && data_holds(#[trigger] s.orphans[j], z);
                assert(data_holds(s1.orphans[j], z));
            }
            assert(live(s1, z));
        }
    }
}

/// A result or end message naming an id that was never begun changes
/// nothing: the state is untouched and nothing is emitted.
pub proof fn lemma_unknown_id_noop(s: MapModel, id: u64, kind: ResultKind, time: u64, fields: Seq<FieldV>)
    requires
        !s.m.contains_key(id),
    ensures
        result_step(s, id, kind) == s,
        result_emit(s, id, kind, time, fields) == Seq::<OpV>::empty(),
        end_step(s, id) == s,
        end_emit(s, id, time) == Seq::<OpV>::empty(),
{
}

/// Phase spans never overlap: a phase change while a phase span is open
/// emits exactly the closing of the old phase span at the new phase's
/// start time, followed by the opening of the new phase span at that same
/// time, under the activity's own span.
pub proof fn lemma_phases_never_overlap(
    s: MapModel,
    id: u64,
    p: u64,
    time: u64,
    fields: Seq<FieldV>,
)
    requires
        state_wf(s),
        s.m.contains_key(id),
        s.m[id].open,
        s.m[id].phase == Some(p),
    ensures
        ({
            let ops = result_emit(s, id, ResultKind::SetPhase, time, fields);
            &&& ops.len() == 2
            &&& ops[0] == (OpV::Close { span: p, time })
            &&& ops[1] matches OpV::Open { span, parent, time: t2, .. }
                && span == s.next_span && parent == Some(s.m[id].span) && t2 == time
            &&& result_step(s, id, ResultKind::SetPhase).m[id].phase == Some(s.next_span)
        }),
{
}

/// Parent resolution: a begin with no parent, or naming a parent that was
/// never begun, attaches to the root span; a begin naming a known parent
/// attaches to that parent's span, whether or not the parent already
/// ended. The emitted opening carries exactly the resolved parent.
pub proof fn lemma_parent_resolution(s: MapModel, rec: ActivityRecordV, time: u64)
    ensures
        match rec.parent {
            None => resolve_parent(s, rec.parent) == root_span(),
            Some(p) => resolve_parent(s, rec.parent) == if s.m.contains_key(p) {
                s.m[p].span
            } else {
                root_span()
            },
        },
        begin_emit(s, rec, time)[0] matches OpV::Open { parent, .. }
            && parent == Some(resolve_parent(s, rec.parent)),
{
}

/// Ending an activity does not disturb any other activity: every other
/// entry is unchanged, the ended entry keeps its span for later parent
/// lookups, and the emitted closings touch only spans the ended entry
/// held open.
pub proof fn lemma_end_keeps_others(s: MapModel, id: u64, time: u64)
    requires
        state_wf(s),
    ensures
        forall|other: u64|
            other != id ==> #[trigger] end_step(s, id).m.contains_key(other)
                == s.m.contains_key(other),
        forall|other: u64|
            other != id && s.m.contains_key(other) ==> #[trigger] end_step(s, id).m[other]
                == s.m[other],
        s.m.contains_key(id) ==> end_step(s, id).m.contains_key(id) && end_step(s, id).m[id].span
            == s.m[id].span,
        s.m.contains_key(id) ==> resolve_parent(end_step(s, id), Some(id)) == resolve_parent(
            s,
            Some(id),
        ),
        forall|k: int|
            0 <= k < end_emit(s, id, time).len() ==> s.m.contains_key(id) && closes_held(
                s.m[id],
                #[trigger] end_emit(s, id, time)[k],
            ),
{
}

/// The counts of a two-operation log.
pub proof fn lemma_count_pair(a: OpV, b: OpV, z: u64)
    ensures
        count_opens(seq![a, b], z) == (if op_opens(a, z) {
            1nat
        } else {
            0nat
        }) + (if op_opens(b, z) {
            1nat
        } else {
            0nat
        }),
        count_closes(seq![a, b], z) == (if op_closes(a, z) {
            1nat
        } else {
            0nat
        }) + (if op_closes(b, z) {
            1nat
        } else {
            0nat
        }),
{
    assert(seq![a, b].drop_last() =~= seq![a]);
    lemma_count_singleton(a, z);
}

/// Processing one message preserves the trace invariant: the emitted
/// operations open exactly the spans the step allocates and close exactly
/// the spans that stop being live.
pub proof fn lemma_step_trace_inv(s: MapModel, log: Seq<OpV>, msg: MsgV)
    requires
        trace_inv(s, log),
        !s.terminated,
        s.next_span < u64::MAX,
        !(msg is Terminate),
    ensures
        trace_inv(step(s, msg), log + emit(s, msg)),
        !step(s, msg).terminated,
        s.next_span <= step(s, msg).next_span <= s.next_span + 1,
{
    let s1 = step(s, msg);
    let ops = emit(s, msg);
    let log1 = log + ops;
    let ns = s.next_span;
    match msg {
        MsgV::Begin { rec, time } => {
            lemma_begin_wf(s, rec);
            lemma_begin_live(s, rec);
            assert forall|z: u64|
                count_opens(log1, z) == if z < s1.next_span {
                    1nat
                } else {
                    0nat
                } by {
                lemma_count_concat(log, ops, z);
                lemma_count_singleton(ops[0], z);
                assert(ops =~= seq![ops[0]]);
                assert(count_opens(log, z) == if z < ns {
                    1nat
                } else {
                    0nat
                });
            }
            assert forall|z: u64|
                count_closes(log1, z) == if z < s1.next_span && !live(s1, z) {
                    1nat
                } else {
                    0nat
                } by {
                lemma_count_concat(log, ops, z);
                lemma_count_singleton(ops[0], z);
                assert(ops =~= seq![ops[0]]);
                assert(count_closes(log, z) == if z < ns && !live(s, z) {
                    1nat
                } else {
                    0nat
                });
                if z == ns {
                    assert(s1.m.contains_key(rec.id) && data_holds(s1.m[rec.id], z));
                    assert(live(s1, z));
                }
            }
        },
        MsgV::End { id, time } => {
            lemma_end_wf(s, id);
            if s.m.contains_key(id) && s.m[id].open {
                let e0 = s.m[id];
                lemma_end_live(s, id);
                assert forall|z: u64|
                    count_opens(log1, z) == if z < s1.next_span {
                        1nat
                    } else {
                        0nat
                    } by {
                    lemma_count_concat(log, ops, z);
                    match e0.phase {
                        Some(p) => {
                            assert(ops =~= seq![ops[0], ops[1]]);
                            lemma_count_pair(ops[0], ops[1], z);
                        },
                        None => {
                            assert(ops =~= seq![ops[0]]);
                            lemma_count_singleton(ops[0], z);
                        },
                    }
                    assert(count_opens(log, z) == if z < ns {
                        1nat
                    } else {
                        0nat
                    });
                }
                assert forall|z: u64|
                    count_closes(log1, z) == if z < s1.next_span && !live(s1, z) {
                        1nat
                    } else {
                        0nat
                    } by {
                    lemma_count_concat(log, ops, z);
                    assert(count_closes(log, z) == if z < ns && !live(s, z) {
                        1nat
                    } else {
                        0nat
                    });
                    match e0.phase {
                        Some(p) => {
                            assert(ops =~= seq![ops[0], ops[1]]);
                            lemma_count_pair(ops[0], ops[1], z);
                            assert(p != e0.span);
                        },
                        None => {
                            assert(ops =~= seq![ops[0]]);
                            lemma_count_singleton(ops[0], z);
                        },
                    }
                    if data_holds(e0, z) {
                        assert(s.m.contains_key(id) && data_holds(s.m[id], z));
                        assert(live(s, z));
                        assert(!live(s1, z));
                        lemma_data_holds_below(e0, ns, z);
                    }
                }
            } else {
                assert(log1 =~= log);
                assert(s1 == s);
            }
        },
        MsgV::Result { id, kind, time, fields } => {
            lemma_result_wf(s, id, kind);
            if s.m.contains_key(id) && s.m[id].open && kind == ResultKind::SetPhase {
                let e0 = s.m[id];
                lemma_setphase_live(s, id);
                assert forall|z: u64|
                    count_opens(log1, z) == if z < s1.next_span {
                        1nat
                    } else {
                        0nat
                    } by {
                    lemma_count_concat(log, ops, z);
                    match e0.phase {
                        Some(p) => {
                            assert(ops =~= seq![ops[0], ops[1]]);
                            lemma_count_pair(ops[0], ops[1], z);
                        },
                        None => {
                            assert(ops =~= seq![ops[0]]);
                            lemma_count_singleton(ops[0], z);
                        },
                    }
                    assert(count_opens(log, z) == if z < ns {
                        1nat
                    } else {
                        0nat
                    });
                }
                assert forall|z: u64|
                    count_closes(log1, z) == if z < s1.next_span && !live(s1, z) {
                        1nat
                    } else {
                        0nat
                    } by {
                    lemma_count_concat(log, ops, z);
                    assert(count_closes(log, z) == if z < ns && !live(s, z) {
                        1nat
                    } else {
                        0nat
                    });
                    match e0.phase {
                        Some(p) => {
                            assert(ops =~= seq![ops[0], ops[1]]);
                            lemma_count_pair(ops[0], ops[1], z);
                            if z == p {
                                assert(s.m.contains_key(id) && data_holds(s.m[id], p));
                                assert(live(s, p));
                                assert(!live(s1, p));
                                lemma_data_holds_below(e0, ns, z);
                            }
                            if z == ns {
                                assert(s1.m.contains_key(id) && data_holds(s1.m[id], z));
                                assert(live(s1, z));
                            }
                        },
                        None => {
                            assert(ops =~= seq![ops[0]]);
                            lemma_count_singleton(ops[0], z);
                            if z == ns {
                                assert(s1.m.contains_key(id) && data_holds(s1.m[id], z));
                                assert(live(s1, z));
                            }
                        },
                    }
                }
            } else {
                assert(s1 == s);
                if s.m.contains_key(id) && s.m[id].open {
                    assert forall|z: u64|
                        count_opens(log1, z) == count_opens(log, z) && count_closes(log1, z)
                            == count_closes(log, z) by {
                        lemma_count_concat(log, ops, z);
                        assert(ops =~= seq![ops[0]]);
                        lemma_count_singleton(ops[0], z);
                    }
                } else {
                    assert(log1 =~= log);
                }
            }
        },
        MsgV::Terminate => {
            assert(false);
        },
    }
}

/// The shutdown closings for one entry close exactly the spans it keeps
/// open, each once, and open nothing.
pub proof fn lemma_close_data_counts(e: ActivityData, ns: u64, t: u64, z: u64)
    requires
        data_wf(e, ns),
    ensures
        count_opens(close_data_emit(e, t), z) == 0,
        count_closes(close_data_emit(e, t), z) == if data_holds(e, z) {
            1nat
        } else {
            0nat
        },
{
    let ops = close_data_emit(e, t);
    if e.open {
        match e.phase {
            Some(p) => {
                assert(ops =~= seq![ops[0], ops[1]]);
                lemma_count_pair(ops[0], ops[1], z);
            },
            None => {
                assert(ops =~= seq![ops[0]]);
                lemma_count_singleton(ops[0], z);
            },
        }
    } else {
        assert(ops =~= Seq::<OpV>::empty());
        assert(count_opens(Seq::<OpV>::empty(), z) == 0);
        assert(count_closes(Seq::<OpV>::empty(), z) == 0);
    }
}

/// The shutdown closings for the first `n` displaced entries close span
/// `z` exactly once if one of them keeps it open — they are pairwise
/// disjoint — and never otherwise.
pub proof fn lemma_close_orphans_counts(s: MapModel, n: int, t: u64, z: u64)
    requires
        state_wf(s),
        0 <= n <= s.orphans.len(),
    ensures
        count_opens(close_orphans_emit(s.orphans.take(n), t), z) == 0,
        count_closes(close_orphans_emit(s.orphans.take(n), t), z) == if exists|j: int|
            0 <= j < n && data_holds(#[trigger] s.orphans[j], z) {
            1nat
        } else {
            0nat
        },
    decreases n,
{
    let pre = s.orphans.take(n);
    if n == 0 {
        assert(pre =~= Seq::<ActivityData>::empty());
        assert(close_orphans_emit(pre, t) == Seq::<OpV>::empty());
        assert(count_opens(Seq::<OpV>::empty(), z) == 0);
        assert(count_closes(Seq::<OpV>::empty(), z) == 0);
    } else {
        lemma_close_orphans_counts(s, n - 1, t, z);
        assert(pre.drop_last() =~= s.orphans.take(n - 1));
        assert(pre.last() == s.orphans[n - 1]);
        lemma_count_concat(
            close_orphans_emit(s.orphans.take(n - 1), t),
            close_data_emit(s.orphans[n - 1], t),
            z,
        );
        lemma_close_data_counts(s.orphans[n - 1], s.next_span, t, z);
        if data_holds(s.orphans[n - 1], z) {
            assert forall|j: int| 0 <= j < n - 1 implies !data_holds(
                #[trigger] s.orphans[j],
                z,
            ) by {
                assert(data_holds(s.orphans[n - 1], z));
            }
        } else {
            if exists|j: int| 0 <= j < n && data_holds(#[trigger] s.orphans[j], z) {
                let j = choose|j: int| 0 <= j < n && data_holds(#[trigger] s.orphans[j], z);
                assert(j < n - 1);
            }
        }
    }
}

/// The shutdown drain over a residue `m` of the tracked entries closes
/// span `z` exactly once if some tracked entry keeps it open, and never
/// otherwise, visiting each id once by begin order.
pub proof fn lemma_drain_counts(
    s: MapModel,
    m: Map<u64, ActivityData>,
    order: Seq<u64>,
    t: u64,
    z: u64,
)
    requires
        state_wf(s),
        forall|id: u64| #[trigger]
            m.contains_key(id) ==> s.m.contains_key(id) && m[id] == s.m[id],
        forall|id: u64| #[trigger] m.contains_key(id) ==> order.contains(id),
    ensures
        count_opens(drain_emit(m, order, t), z) == 0,
        count_closes(drain_emit(m, order, t), z) == if exists|id: u64|
            #[trigger] m.contains_key(id) && data_holds(m[id], z) {
            1nat
        } else {
            0nat
        },
    decreases order.len(),
{
    if order.len() == 0 {
        if exists|id: u64| #[trigger] m.contains_key(id) && data_holds(m[id], z) {
            let id = choose|id: u64| #[trigger] m.contains_key(id) && data_holds(m[id], z);
            assert(order.contains(id));
            assert(false);
        }
        assert(drain_emit(m, order, t) == Seq::<OpV>::empty());
        assert(count_opens(Seq::<OpV>::empty(), z) == 0);
        assert(count_closes(Seq::<OpV>::empty(), z) == 0);
    } else {
        let id0 = order[0];
        let rest = order.drop_first();
        if m.contains_key(id0) {
            let m1 = m.remove(id0);
            assert forall|id2: u64| #[trigger] m1.contains_key(id2) implies rest.contains(
                id2,
            ) by {
                assert(m.contains_key(id2));
                assert(order.contains(id2));
                let k = choose|k: int| 0 <= k < order.len() && order[k] == id2;
                assert(k != 0);
                assert(rest[k - 1] == id2);
            }
            lemma_drain_counts(s, m1, rest, t, z);
            lemma_count_concat(close_data_emit(m[id0], t), drain_emit(m1, rest, t), z);
            assert(data_wf(m[id0], s.next_span));
            lemma_close_data_counts(m[id0], s.next_span, t, z);
            if data_holds(m[id0], z) {
                if exists|id2: u64| #[trigger] m1.contains_key(id2) && data_holds(m1[id2], z) {
                    let id2 = choose|id2: u64|
                        #[trigger] m1.contains_key(id2) && data_holds(m1[id2], z);
                    assert(data_holds(s.m[id0], z) && data_holds(s.m[id2], z));
                    assert(false);
                }
                assert(m.contains_key(id0) && data_holds(m[id0], z));
            } else {
                if exists|id2: u64| #[trigger] m.contains_key(id2) && data_holds(m[id2], z) {
                    let id2 = choose|id2: u64|
                        #[trigger] m.contains_key(id2) && data_holds(m[id2], z);
                    assert(id2 != id0);
                    assert(m1.contains_key(id2) && data_holds(m1[id2], z));
                }
                if exists|id2: u64| #[trigger] m1.contains_key(id2) && data_holds(m1[id2], z) {
                    let id2 = choose|id2: u64|
                        #[trigger] m1.contains_key(id2) && data_holds(m1[id2], z);
                    assert(m.contains_key(id2) && data_holds(m[id2], z));
                }
            }
        } else {
            assert forall|id2: u64| #[trigger] m.contains_key(id2) implies rest.contains(
                id2,
            ) by {
                assert(order.contains(id2));
                let k = choose|k: int| 0 <= k < order.len() && order[k] == id2;
                assert(k != 0);
                assert(rest[k - 1] == id2);
            }
            lemma_drain_counts(s, m, rest, t, z);
        }
    }
}

/// Shutdown is total: the operations emitted at terminate close exactly
/// the spans still live — each once — close the root span, and end with
/// the forced flush, so the run's full log opens and closes every span of
/// the run exactly once.
pub proof fn lemma_terminate_trace(s: MapModel, log: Seq<OpV>, time: u64)
    requires
        trace_inv(s, log),
        !s.terminated,
    ensures
        trace_inv(terminate_state(s), log + terminate_emit(s, time)),
        forall|z: u64| #[trigger] count_closes(log + terminate_emit(s, time), z) == count_opens(
            log + terminate_emit(s, time),
            z,
        ),
        forall|z: u64| !live(terminate_state(s), z),
        (log + terminate_emit(s, time)).last() == OpV::Flush,
        (log + terminate_emit(s, time))[(log + terminate_emit(s, time)).len() - 2]
            == (OpV::Close { span: root_span(), time }),
{
    let s1 = terminate_state(s);
    let term = terminate_emit(s, time);
    let log1 = log + term;
    let ns = s.next_span;
    let a = close_orphans_emit(s.orphans, time);
    let b = drain_emit(s.m, s.order, time);
    let c = seq![OpV::Close { span: root_span(), time }, OpV::Flush];
    assert(term == (a + b) + c);
    assert forall|z: u64| !live(s1, z) by {
        if exists|id: u64| #[trigger] s1.m.contains_key(id) && data_holds(s1.m[id], z) {
            let id = choose|id: u64|
                #[trigger] s1.m.contains_key(id) && data_holds(s1.m[id], z);
            assert(false);
        }
    }
    assert forall|z: u64|
        count_opens(term, z) == 0 && count_closes(term, z) == if live(s, z) {
            1nat
        } else {
            0nat
        } by {
        lemma_count_concat(a + b, c, z);
        lemma_count_concat(a, b, z);
        assert(c =~= seq![c[0], c[1]]);
        lemma_count_pair(c[0], c[1], z);
        assert(s.orphans.take(s.orphans.len() as int) =~= s.orphans);
        lemma_close_orphans_counts(s, s.orphans.len() as int, time, z);
        lemma_drain_counts(s, s.m, s.order, time, z);
        if z == root_span() {
            if exists|id: u64| #[trigger] s.m.contains_key(id) && data_holds(s.m[id], z) {
                let id = choose|id: u64|
                    #[trigger] s.m.contains_key(id) && data_holds(s.m[id], z);
                lemma_no_entry_holds_root(s.m[id], ns);
            }
            if exists|j: int| 0 <= j < s.orphans.len() && data_holds(#[trigger] s.orphans[j], z) {
                let j = choose|j: int|
                    0 <= j < s.orphans.len() && data_holds(#[trigger] s.orphans[j], z);
                lemma_no_entry_holds_root(s.orphans[j], ns);
            }
            assert(live(s, z));
        } else {
            if exists|id: u64| #[trigger] s.m.contains_key(id) && data_holds(s.m[id], z) {
                let id = choose|id: u64|
                    #[trigger] s.m.contains_key(id) && data_holds(s.m[id], z);
                if exists|j: int|
                    0 <= j < s.orphans.len() && data_holds(#[trigger] s.orphans[j], z) {
                    let j = choose|j: int|
                        0 <= j < s.orphans.len() && data_holds(#[trigger] s.orphans[j], z);
                    assert(false);
                }
            }
        }
    }
    assert forall|z: u64|
        count_opens(log1, z) == if z < s1.next_span {
            1nat
        } else {
            0nat
        } by {
        lemma_count_concat(log, term, z);
        assert(count_opens(log, z) == if z < ns {
            1nat
        } else {
            0nat
        });
    }
    assert forall|z: u64| #[trigger] count_closes(log1, z) == count_opens(log1, z) by {
        lemma_count_concat(log, term, z);
        assert(count_opens(log, z) == if z < ns {
            1nat
        } else {
            0nat
        });
        assert(count_closes(log, z) == if z < ns && !live(s, z) {
            1nat
        } else {
            0nat
        });
        if live(s, z) && z != root_span() {
            if exists|id: u64| #[trigger] s.m.contains_key(id) && data_holds(s.m[id], z) {
                let id = choose|id: u64|
                    #[trigger] s.m.contains_key(id) && data_holds(s.m[id], z);
                lemma_data_holds_below(s.m[id], ns, z);
            } else {
                let j = choose|j: int|
                    0 <= j < s.orphans.len() && data_holds(#[trigger] s.orphans[j], z);
                lemma_data_holds_below(s.orphans[j], ns, z);
            }
        }
    }
    assert forall|z: u64|
        count_closes(log1, z) == if z < s1.next_span && !live(s1, z) {
            1nat
        } else {
            0nat
        } by {
        assert(count_closes(log1, z) == count_opens(log1, z));
        assert(!live(s1, z));
    }
    assert(log1.last() == c[1]);
    assert(log1[log1.len() - 2] == c[0]);
}

/// True when no message of the sequence is the terminate sentinel.
pub open spec fn no_terminate(msgs: Seq<MsgV>) -> bool {
    forall|i: int| 0 <= i < msgs.len() ==> !((#[trigger] msgs[i]) is Terminate)
}

/// The state after the engine processes a message sequence in order.
pub open spec fn run(s: MapModel, msgs: Seq<MsgV>) -> MapModel
    decreases msgs.len(),
{
    if msgs.len() == 0 {
        s
    } else {
        run(step(s, msgs[0]), msgs.drop_first())
    }
}

/// Everything the engine emits while processing a message sequence.
pub open spec fn run_ops(s: MapModel, msgs: Seq<MsgV>) -> Seq<OpV>
    decreases msgs.len(),
{
    if msgs.len() == 0 {
        Seq::empty()
    } else {
        emit(s, msgs[0]) + run_ops(step(s, msgs[0]), msgs.drop_first())
    }
}

/// The trace invariant holds along every run of non-terminate messages.
pub proof fn lemma_run_trace_inv(s: MapModel, log: Seq<OpV>, msgs: Seq<MsgV>)
    requires
        trace_inv(s, log),
        !s.terminated,
        no_terminate(msgs),
        s.next_span + msgs.len() <= u64::MAX,
    ensures
        trace_inv(run(s, msgs), log + run_ops(s, msgs)),
        !run(s, msgs).terminated,
        run(s, msgs).next_span <= s.next_span + msgs.len(),
    decreases msgs.len(),
{
    if msgs.len() == 0 {
        assert(log + run_ops(s, msgs) =~= log);
    } else {
        let m0 = msgs[0];
        assert(!(m0 is Terminate));
        lemma_step_trace_inv(s, log, m0);
        let s1 = step(s, m0);
        assert forall|i: int| 0 <= i < msgs.drop_first().len() implies !((
        #[trigger] msgs.drop_first()[i]) is Terminate) by {
            assert(msgs.drop_first()[i] == msgs[i + 1]);
        }
        lemma_run_trace_inv(s1, log + emit(s, m0), msgs.drop_first());
        assert((log + emit(s, m0)) + run_ops(s1, msgs.drop_first()) =~= log + run_ops(s, msgs));
    }
}

/// The engine's lifecycle guarantee for a whole run: starting from the
/// fresh engine, processing any sequence of begin, result and end
/// messages, and shutting down, the full operation log opens every span of
/// the run exactly once, closes every opened span exactly once — however
/// many results each activity saw, and whether or not it was explicitly
/// ended — and finishes with the root span's closing followed by the
/// forced flush.
pub proof fn theorem_lifecycle(root_name: Seq<char>, start: u64, msgs: Seq<MsgV>, finish: u64)
    requires
        no_terminate(msgs),
        1 + msgs.len() <= u64::MAX,
    ensures
        ({
            let s_end = run(init_state(), msgs);
            let log = init_emit(root_name, start) + run_ops(init_state(), msgs)
                + terminate_emit(s_end, finish);
            &&& forall|z: u64|
                count_opens(log, z) == if z < s_end.next_span {
                    1nat
                } else {
                    0nat
                }
            &&& forall|z: u64| #[trigger] count_closes(log, z) == count_opens(log, z)
            &&& log.last() == OpV::Flush
            &&& log[log.len() - 2] == (OpV::Close { span: root_span(), time: finish })
        }),
{
    lemma_init_trace_inv(root_name, start);
    let log0 = init_emit(root_name, start);
    lemma_run_trace_inv(init_state(), log0, msgs);
    let s_end = run(init_state(), msgs);
    lemma_terminate_trace(s_end, log0 + run_ops(init_state(), msgs), finish);
    assert((log0 + run_ops(init_state(), msgs)) + terminate_emit(s_end, finish) =~= log0
        + run_ops(init_state(), msgs) + terminate_emit(s_end, finish));
}

/// A begin message emits exactly one operation: the opening of one fresh
/// span for the activity.
pub proof fn lemma_begin_one_span(s: MapModel, rec: ActivityRecordV, time: u64)
    ensures
        begin_emit(s, rec, time).len() == 1,
        begin_emit(s, rec, time)[0] matches OpV::Open { span, .. } && span == s.next_span,
        begin_step(s, rec).m[rec.id].span == s.next_span,
{
}

} // verus!
