//! Translation of host-native arguments into engine messages: the compute
//! part of the plugin's synchronous entry points. The boundary itself —
//! foreign strings, timestamps, the queue — stays outside; these functions
//! take owned, decoded values and never touch engine state.

use vstd::prelude::*;

use crate::activity::{
    ActivityId, ActivityKind, ActivityRecord, ActivityRecordV, RawField, ResultKind,
    activity_kind_of_code, raw_fields_view, result_kind_of_code, unmarshal_fields,
    unmarshal_fields_spec,
};
use crate::engine::{Message, MsgV};

verus! {

/// Build the begin message for `startActivity`: a parent value of 0 means
/// "no parent" and the activity attaches to the run's root; the kind code
/// decodes defensively.
pub fn begin_message(id: u64, kind_code: u32, name: String, parent: u64, time: u64) -> (m:
    Message)
    ensures
        m@ == (MsgV::Begin {
            rec: ActivityRecordV {
                id,
                parent: if parent == 0 {
                    None
                } else {
                    Some(parent)
                },
                name: name@,
                kind: activity_kind_of_code(kind_code),
            },
            time,
        }),
{
    let record = ActivityRecord {
        id: ActivityId(id),
        parent: if parent == 0 {
            None
        } else {
            Some(ActivityId(parent))
        },
        name,
        kind: ActivityKind::from_code(kind_code),
    };
    Message::BeginActivity(record, time)
}

/// Build the result message for `onResult`: the kind code decodes
/// defensively and the raw fields are validated, dropping any field whose
/// byte payload is not valid UTF-8.
pub fn result_message(id: u64, kind_code: u32, raw_fields: &Vec<RawField>, time: u64) -> (m:
    Message)
    ensures
        m@ == (MsgV::Result {
            id,
            kind: result_kind_of_code(kind_code),
            time,
            fields: unmarshal_fields_spec(raw_fields_view(raw_fields@)),
        }),
{
    let fields = unmarshal_fields(raw_fields);
    Message::Result(ActivityId(id), ResultKind::from_code(kind_code), time, fields)
}

/// Build the end message for `endActivity`.
pub fn end_message(id: u64, time: u64) -> (m: Message)
    ensures
        m@ == (MsgV::End { id, time }),
{
    Message::EndActivity(ActivityId(id), time)
}

} // verus!
