//! Scenario tests for the span lifecycle engine.

use nix_otel::engine::{Message, SpanMap, SpanOp};
use nix_otel::{ActivityId, ActivityKind, ActivityRecord, Field, ResultKind};

fn record(id: u64, parent: Option<u64>, name: &str, kind: ActivityKind) -> ActivityRecord {
    ActivityRecord {
        id: ActivityId(id),
        parent: parent.map(ActivityId),
        name: String::from(name),
        kind,
    }
}

fn open(span: u64, parent: u64, name: &str, kind: ActivityKind, time: u64) -> SpanOp {
    SpanOp::Open {
        span,
        parent: Some(parent),
        name: String::from(name),
        kind: Some(kind),
        time,
    }
}

fn open_phase(span: u64, parent: u64, name: &str, time: u64) -> SpanOp {
    SpanOp::Open { span, parent: Some(parent), name: String::from(name), kind: None, time }
}

fn close(span: u64, time: u64) -> SpanOp {
    SpanOp::Close { span, time }
}

#[test]
fn build_foo_scenario() {
    // One activity with a phase and a log line, ended and flushed.
    let (mut sm, ops0) = SpanMap::new(String::from("run"), 10);
    assert_eq!(
        ops0,
        vec![SpanOp::Open {
            span: 0,
            parent: None,
            name: String::from("run"),
            kind: None,
            time: 10,
        }]
    );

    let ops1 = sm.begin(record(1, None, "build foo", ActivityKind::Build), 11);
    assert_eq!(ops1, vec![open(1, 0, "build foo", ActivityKind::Build, 11)]);

    let ops2 = sm.result(
        ActivityId(1),
        ResultKind::SetPhase,
        12,
        vec![Field::String(String::from("compiling"))],
    );
    assert_eq!(ops2, vec![open_phase(2, 1, "compiling", 12)]);

    let ops3 = sm.result(
        ActivityId(1),
        ResultKind::BuildLogLine,
        13,
        vec![Field::String(String::from("cc -o foo foo.c"))],
    );
    assert_eq!(
        ops3,
        vec![SpanOp::Event {
            span: 1,
            name: String::from("cc -o foo foo.c"),
            kind: ResultKind::BuildLogLine,
            time: 13,
            fields: vec![String::from("cc -o foo foo.c")],
        }]
    );

    let ops4 = sm.end(ActivityId(1), 14);
    assert_eq!(ops4, vec![close(2, 14), close(1, 14)]);

    // Shutdown: everything already closed, so only the root span closes,
    // then the flush — in that order.
    let ops5 = sm.terminate(15);
    assert_eq!(ops5, vec![close(0, 15), SpanOp::Flush]);
}

#[test]
fn child_keeps_parent_after_parent_ends() {
    // An activity started under a parent keeps that parent's span, and a
    // begin naming an already-ended parent still resolves to its span.
    let (mut sm, _) = SpanMap::new(String::from("run"), 0);
    sm.begin(record(1, None, "parent work", ActivityKind::Builds), 1);
    let ops2 = sm.begin(record(2, Some(1), "copy bar", ActivityKind::CopyPath), 2);
    assert_eq!(ops2, vec![open(2, 1, "copy bar", ActivityKind::CopyPath, 2)]);

    // Parent ends while the child is still open: the child is untouched.
    let ops3 = sm.end(ActivityId(1), 3);
    assert_eq!(ops3, vec![close(1, 3)]);

    // The ended parent can still be referenced by a later begin.
    let ops4 = sm.begin(record(3, Some(1), "late child", ActivityKind::Substitute), 4);
    assert_eq!(ops4, vec![open(3, 1, "late child", ActivityKind::Substitute, 4)]);

    let ops5 = sm.end(ActivityId(2), 5);
    assert_eq!(ops5, vec![close(2, 5)]);
    let ops6 = sm.end(ActivityId(3), 6);
    assert_eq!(ops6, vec![close(3, 6)]);
    assert_eq!(sm.terminate(7), vec![close(0, 7), SpanOp::Flush]);
}

#[test]
fn unknown_id_is_a_no_op() {
    let (mut sm, _) = SpanMap::new(String::from("run"), 0);
    let ops1 = sm.result(
        ActivityId(99),
        ResultKind::BuildLogLine,
        1,
        vec![Field::String(String::from("lost"))],
    );
    assert_eq!(ops1, Vec::new());
    let ops2 = sm.end(ActivityId(99), 2);
    assert_eq!(ops2, Vec::new());

    // The engine is unaffected: the next begin still gets span 1.
    let ops3 = sm.begin(record(1, None, "work", ActivityKind::Build), 3);
    assert_eq!(ops3, vec![open(1, 0, "work", ActivityKind::Build, 3)]);
}

#[test]
fn phases_never_overlap() {
    let (mut sm, _) = SpanMap::new(String::from("run"), 0);
    sm.begin(record(1, None, "build", ActivityKind::Build), 1);
    let ops1 = sm.result(
        ActivityId(1),
        ResultKind::SetPhase,
        2,
        vec![Field::String(String::from("unpacking"))],
    );
    assert_eq!(ops1, vec![open_phase(2, 1, "unpacking", 2)]);

    // Phase B at time 5: phase A is closed at 5, before B opens at 5.
    let ops2 = sm.result(
        ActivityId(1),
        ResultKind::SetPhase,
        5,
        vec![Field::String(String::from("building"))],
    );
    assert_eq!(ops2, vec![close(2, 5), open_phase(3, 1, "building", 5)]);

    // Ending the activity closes the open phase first.
    let ops3 = sm.end(ActivityId(1), 6);
    assert_eq!(ops3, vec![close(3, 6), close(1, 6)]);
}

#[test]
fn parent_zero_and_unknown_parent_fall_back_to_root() {
    let (mut sm, _) = SpanMap::new(String::from("run"), 0);
    // parent never begun: attach to the root span (0).
    let ops1 = sm.begin(record(5, Some(42), "orphaned child", ActivityKind::Realise), 1);
    assert_eq!(ops1, vec![open(1, 0, "orphaned child", ActivityKind::Realise, 1)]);
    // no parent at all: the root again.
    let ops2 = sm.begin(record(6, None, "top level", ActivityKind::Build), 2);
    assert_eq!(ops2, vec![open(2, 0, "top level", ActivityKind::Build, 2)]);
}

#[test]
fn end_closes_exactly_once() {
    let (mut sm, _) = SpanMap::new(String::from("run"), 0);
    sm.begin(record(1, None, "work", ActivityKind::Build), 1);
    assert_eq!(sm.end(ActivityId(1), 2), vec![close(1, 2)]);
    // A second end for the same id is ignored.
    assert_eq!(sm.end(ActivityId(1), 3), Vec::new());
    // A result after the end is ignored too.
    let ops = sm.result(
        ActivityId(1),
        ResultKind::BuildLogLine,
        4,
        vec![Field::String(String::from("late"))],
    );
    assert_eq!(ops, Vec::new());
    assert_eq!(sm.terminate(5), vec![close(0, 5), SpanOp::Flush]);
}

#[test]
fn duplicate_begin_last_write_wins_and_shutdown_closes_both() {
    let (mut sm, _) = SpanMap::new(String::from("run"), 0);
    sm.begin(record(1, None, "first", ActivityKind::Build), 1);
    // The host reuses a live id: the new span wins the map entry.
    let ops = sm.begin(record(1, None, "second", ActivityKind::Build), 2);
    assert_eq!(ops, vec![open(2, 0, "second", ActivityKind::Build, 2)]);
    // An end reaches the second span only.
    assert_eq!(sm.end(ActivityId(1), 3), vec![close(2, 3)]);
    // Shutdown still closes the displaced first span, exactly once.
    assert_eq!(sm.terminate(4), vec![close(1, 4), close(0, 4), SpanOp::Flush]);
}

#[test]
fn shutdown_closes_everything_still_open() {
    let (mut sm, _) = SpanMap::new(String::from("run"), 0);
    sm.begin(record(1, None, "never ended", ActivityKind::Build), 1);
    sm.result(
        ActivityId(1),
        ResultKind::SetPhase,
        2,
        vec![Field::String(String::from("stuck"))],
    );
    sm.begin(record(2, None, "also open", ActivityKind::CopyPath), 3);
    // Shutdown closes, in begin order, each open phase then its span,
    // then the root span, then flushes.
    assert_eq!(
        sm.terminate(9),
        vec![close(2, 9), close(1, 9), close(3, 9), close(0, 9), SpanOp::Flush]
    );
}

#[test]
fn placeholders_for_missing_fields() {
    let (mut sm, _) = SpanMap::new(String::from("run"), 0);
    sm.begin(record(1, None, "work", ActivityKind::Build), 1);
    let ops1 = sm.result(ActivityId(1), ResultKind::SetPhase, 2, Vec::new());
    assert_eq!(ops1, vec![open_phase(2, 1, "no phase", 2)]);
    let ops2 = sm.result(ActivityId(1), ResultKind::BuildLogLine, 3, Vec::new());
    assert_eq!(
        ops2,
        vec![SpanOp::Event {
            span: 1,
            name: String::from("(no message)"),
            kind: ResultKind::BuildLogLine,
            time: 3,
            fields: Vec::new(),
        }]
    );
}

#[test]
fn generic_results_become_named_events() {
    let (mut sm, _) = SpanMap::new(String::from("run"), 0);
    sm.begin(record(1, None, "fetch", ActivityKind::FileTransfer), 1);
    let ops = sm.result(
        ActivityId(1),
        ResultKind::Progress,
        2,
        vec![Field::Num(3), Field::String(String::from("of")), Field::Num(40)],
    );
    assert_eq!(
        ops,
        vec![SpanOp::Event {
            span: 1,
            name: String::from("Progress"),
            kind: ResultKind::Progress,
            time: 2,
            fields: vec![String::from("3"), String::from("of"), String::from("40")],
        }]
    );
}

#[test]
fn post_build_log_line_carries_its_message() {
    let (mut sm, _) = SpanMap::new(String::from("run"), 0);
    sm.begin(record(1, None, "hook", ActivityKind::PostBuildHook), 1);
    let ops = sm.result(
        ActivityId(1),
        ResultKind::PostBuildLogLine,
        2,
        vec![Field::String(String::from("signing path"))],
    );
    assert_eq!(
        ops,
        vec![SpanOp::Event {
            span: 1,
            name: String::from("signing path"),
            kind: ResultKind::PostBuildLogLine,
            time: 2,
            fields: vec![String::from("signing path")],
        }]
    );
}

#[test]
fn consume_drives_the_receive_loop() {
    let (mut sm, _) = SpanMap::new(String::from("run"), 0);
    let msg = Message::BeginActivity(record(1, None, "work", ActivityKind::Build), 1);
    let (done, ops) = sm.consume(Some(msg), 99);
    assert!(!done);
    assert_eq!(ops, vec![open(1, 0, "work", ActivityKind::Build, 1)]);

    // The terminate sentinel ends consumption with a full shutdown.
    let (done, ops) = sm.consume(Some(Message::Terminate), 7);
    assert!(done);
    assert_eq!(ops, vec![close(1, 7), close(0, 7), SpanOp::Flush]);
}

#[test]
fn closed_channel_shuts_down_like_terminate() {
    let (mut sm, _) = SpanMap::new(String::from("run"), 0);
    let (done, ops) = sm.consume(None, 5);
    assert!(done);
    assert_eq!(ops, vec![close(0, 5), SpanOp::Flush]);
}

#[test]
fn process_message_dispatches_by_variant() {
    let (mut sm, _) = SpanMap::new(String::from("run"), 0);
    let ops1 = sm.process_message(Message::BeginActivity(
        record(1, None, "work", ActivityKind::Build),
        1,
    ));
    assert_eq!(ops1, vec![open(1, 0, "work", ActivityKind::Build, 1)]);
    let ops2 = sm.process_message(Message::Result(
        ActivityId(1),
        ResultKind::SetPhase,
        2,
        vec![Field::String(String::from("go"))],
    ));
    assert_eq!(ops2, vec![open_phase(2, 1, "go", 2)]);
    let ops3 = sm.process_message(Message::EndActivity(ActivityId(1), 3));
    assert_eq!(ops3, vec![close(2, 3), close(1, 3)]);
}
