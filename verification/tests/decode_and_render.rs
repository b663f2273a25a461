//! Tests for field decoding, kind codes, and text rendering.

use nix_otel::activity::{unmarshal_field, unmarshal_fields};
use nix_otel::boundary::{begin_message, end_message, result_message};
use nix_otel::engine::Message;
use nix_otel::text::{field_string, field_strings, u64_to_string};
use nix_otel::{ActivityKind, Field, RawField, ResultKind};

#[test]
fn valid_utf8_bytes_decode_to_text() {
    let raw = RawField::Bytes(Vec::from("compiling".as_bytes()));
    assert_eq!(
        unmarshal_field(&raw),
        Some(Field::String(String::from("compiling")))
    );
}

#[test]
fn invalid_utf8_rejects_the_single_field() {
    let raw = RawField::Bytes(vec![0xff, 0xfe, 0x41]);
    assert_eq!(unmarshal_field(&raw), None);
}

#[test]
fn numbers_pass_through() {
    assert_eq!(unmarshal_field(&RawField::Num(17)), Some(Field::Num(17)));
}

#[test]
fn field_sequence_drops_invalid_and_keeps_order() {
    let raws = vec![
        RawField::Num(1),
        RawField::Bytes(vec![0xc3, 0x28]),
        RawField::Bytes(Vec::from("ok".as_bytes())),
        RawField::Num(2),
    ];
    assert_eq!(
        unmarshal_fields(&raws),
        vec![
            Field::Num(1),
            Field::String(String::from("ok")),
            Field::Num(2),
        ]
    );
}

#[test]
fn empty_field_sequence_decodes_empty() {
    assert_eq!(unmarshal_fields(&Vec::new()), Vec::new());
}

#[test]
fn kind_codes_decode_and_unknown_is_tolerated() {
    assert!(matches!(ActivityKind::from_code(105), ActivityKind::Build));
    assert!(matches!(ActivityKind::from_code(100), ActivityKind::CopyPath));
    assert!(matches!(ActivityKind::from_code(111), ActivityKind::BuildWaiting));
    assert!(matches!(ActivityKind::from_code(9999), ActivityKind::Unknown));
    assert!(matches!(ResultKind::from_code(104), ResultKind::SetPhase));
    assert!(matches!(ResultKind::from_code(101), ResultKind::BuildLogLine));
    assert!(matches!(ResultKind::from_code(107), ResultKind::PostBuildLogLine));
    assert!(matches!(ResultKind::from_code(3), ResultKind::Unknown));
}

#[test]
fn kind_labels_match_variant_names() {
    assert_eq!(ActivityKind::Build.label(), "Build");
    assert_eq!(ActivityKind::OptimiseStore.label(), "OptimiseStore");
    assert_eq!(ResultKind::Progress.label(), "Progress");
    assert_eq!(ResultKind::UntrustedPath.label(), "UntrustedPath");
}

#[test]
fn decimal_rendering_is_exact() {
    assert_eq!(u64_to_string(0), "0");
    assert_eq!(u64_to_string(7), "7");
    assert_eq!(u64_to_string(40), "40");
    assert_eq!(u64_to_string(1234567890), "1234567890");
    assert_eq!(u64_to_string(u64::MAX), "18446744073709551615");
}

#[test]
fn fields_render_for_display() {
    assert_eq!(field_string(&Field::String(String::from("text"))), "text");
    assert_eq!(field_string(&Field::Num(105)), "105");
    let rendered = field_strings(&vec![
        Field::Num(3),
        Field::String(String::from("of")),
        Field::Num(40),
    ]);
    assert_eq!(rendered, vec!["3", "of", "40"]);
}

#[test]
fn begin_message_reserves_zero_as_no_parent() {
    let m = begin_message(1, 105, String::from("build foo"), 0, 11);
    match m {
        Message::BeginActivity(rec, time) => {
            assert_eq!(rec.id.0, 1);
            assert_eq!(rec.parent, None);
            assert_eq!(rec.name, "build foo");
            assert!(matches!(rec.kind, ActivityKind::Build));
            assert_eq!(time, 11);
        },
        _ => panic!("expected a begin message"),
    }
}

#[test]
fn begin_message_keeps_a_nonzero_parent() {
    let m = begin_message(2, 100, String::from("copy bar"), 1, 12);
    match m {
        Message::BeginActivity(rec, _) => {
            assert_eq!(rec.parent.map(|p| p.0), Some(1));
            assert!(matches!(rec.kind, ActivityKind::CopyPath));
        },
        _ => panic!("expected a begin message"),
    }
}

#[test]
fn result_message_decodes_kind_and_fields() {
    let raws = vec![
        RawField::Bytes(Vec::from("compiling".as_bytes())),
        RawField::Bytes(vec![0x80]),
        RawField::Num(5),
    ];
    let m = result_message(1, 104, &raws, 13);
    match m {
        Message::Result(id, kind, time, fields) => {
            assert_eq!(id.0, 1);
            assert!(matches!(kind, ResultKind::SetPhase));
            assert_eq!(time, 13);
            assert_eq!(
                fields,
                vec![Field::String(String::from("compiling")), Field::Num(5)]
            );
        },
        _ => panic!("expected a result message"),
    }
}

#[test]
fn end_message_carries_id_and_time() {
    let m = end_message(9, 21);
    match m {
        Message::EndActivity(id, time) => {
            assert_eq!(id.0, 9);
            assert_eq!(time, 21);
        },
        _ => panic!("expected an end message"),
    }
}
