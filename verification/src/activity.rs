//! Identifiers and value types for host-reported activities, and the
//! validated decoding of raw host-supplied fields into owned values.

use vstd::prelude::*;
use vstd::utf8::{decode_utf8, valid_utf8};

verus! {

/// Opaque identifier the host assigns to one activity. The value 0 is
/// reserved to mean "no parent" in begin messages.
#[derive(Clone, Copy, Debug, Eq, PartialEq, PartialOrd, Ord, Hash, Structural)]
pub struct ActivityId(pub u64);

/// Category of work an activity performs. Purely descriptive: it becomes a
/// span attribute and never drives engine decisions.
#[derive(Clone, Copy, Debug, PartialEq, Eq, Structural)]
pub enum ActivityKind {
    Unknown,
    CopyPath,
    FileTransfer,
    Realise,
    CopyPaths,
    Builds,
    Build,
    OptimiseStore,
    VerifyPaths,
    Substitute,
    QueryPathInfo,
    PostBuildHook,
    BuildWaiting,
}

/// The activity kind a host-supplied code stands for. Codes outside the
/// protocol decode defensively to `Unknown`.
pub open spec fn activity_kind_of_code(code: u32) -> ActivityKind {
    if code == 100 {
        ActivityKind::CopyPath
    } else if code == 101 {
        ActivityKind::FileTransfer
    } else if code == 102 {
        ActivityKind::Realise
    } else if code == 103 {
        ActivityKind::CopyPaths
    } else if code == 104 {
        ActivityKind::Builds
    } else if code == 105 {
        ActivityKind::Build
    } else if code == 106 {
        ActivityKind::OptimiseStore
    } else if code == 107 {
        ActivityKind::VerifyPaths
    } else if code == 108 {
        ActivityKind::Substitute
    } else if code == 109 {
        ActivityKind::QueryPathInfo
    } else if code == 110 {
        ActivityKind::PostBuildHook
    } else if code == 111 {
        ActivityKind::BuildWaiting
    } else {
        ActivityKind::Unknown
    }
}

/// The display name of an activity kind, used as a span attribute value.
pub open spec fn activity_kind_label(kind: ActivityKind) -> Seq<char> {
    match kind {
        ActivityKind::Unknown => "Unknown"@,
        ActivityKind::CopyPath => "CopyPath"@,
        ActivityKind::FileTransfer => "FileTransfer"@,
        ActivityKind::Realise => "Realise"@,
        ActivityKind::CopyPaths => "CopyPaths"@,
        ActivityKind::Builds => "Builds"@,
        ActivityKind::Build => "Build"@,
        ActivityKind::OptimiseStore => "OptimiseStore"@,
        ActivityKind::VerifyPaths => "VerifyPaths"@,
        ActivityKind::Substitute => "Substitute"@,
        ActivityKind::QueryPathInfo => "QueryPathInfo"@,
        ActivityKind::PostBuildHook => "PostBuildHook"@,
        ActivityKind::BuildWaiting => "BuildWaiting"@,
    }
}

impl ActivityKind {
    /// Decode a host-supplied activity-kind code; unknown codes are tolerated.
    pub fn from_code(code: u32) -> (r: ActivityKind)
        ensures
            r == activity_kind_of_code(code),
    {
        match code {
            100 => ActivityKind::CopyPath,
            101 => ActivityKind::FileTransfer,
            102 => ActivityKind::Realise,
            103 => ActivityKind::CopyPaths,
            104 => ActivityKind::Builds,
            105 => ActivityKind::Build,
            106 => ActivityKind::OptimiseStore,
            107 => ActivityKind::VerifyPaths,
            108 => ActivityKind::Substitute,
            109 => ActivityKind::QueryPathInfo,
            110 => ActivityKind::PostBuildHook,
            111 => ActivityKind::BuildWaiting,
            _ => ActivityKind::Unknown,
        }
    }

    /// The kind's display name.
    pub fn label(&self) -> (r: String)
        ensures
            r@ == activity_kind_label(*self),
    {
        match self {
            ActivityKind::Unknown => "Unknown".to_owned(),
            ActivityKind::CopyPath => "CopyPath".to_owned(),
            ActivityKind::FileTransfer => "FileTransfer".to_owned(),
            ActivityKind::Realise => "Realise".to_owned(),
            ActivityKind::CopyPaths => "CopyPaths".to_owned(),
            ActivityKind::Builds => "Builds".to_owned(),
            ActivityKind::Build => "Build".to_owned(),
            ActivityKind::OptimiseStore => "OptimiseStore".to_owned(),
            ActivityKind::VerifyPaths => "VerifyPaths".to_owned(),
            ActivityKind::Substitute => "Substitute".to_owned(),
            ActivityKind::QueryPathInfo => "QueryPathInfo".to_owned(),
            ActivityKind::PostBuildHook => "PostBuildHook".to_owned(),
            ActivityKind::BuildWaiting => "BuildWaiting".to_owned(),
        }
    }
}

/// Category of a result event reported against a running activity.
#[derive(Clone, Copy, Debug, PartialEq, Eq, Structural)]
pub enum ResultKind {
    Unknown,
    FileLinked,
    BuildLogLine,
    UntrustedPath,
    CorruptedPath,
    SetPhase,
    Progress,
    SetExpected,
    PostBuildLogLine,
}

/// The result kind a host-supplied code stands for. Codes outside the
/// protocol decode defensively to `Unknown`.
pub open spec fn result_kind_of_code(code: u32) -> ResultKind {
    if code == 100 {
        ResultKind::FileLinked
    } else if code == 101 {
        ResultKind::BuildLogLine
    } else if code == 102 {
        ResultKind::UntrustedPath
    } else if code == 103 {
        ResultKind::CorruptedPath
    } else if code == 104 {
        ResultKind::SetPhase
    } else if code == 105 {
        ResultKind::Progress
    } else if code == 106 {
        ResultKind::SetExpected
    } else if code == 107 {
        ResultKind::PostBuildLogLine
    } else {
        ResultKind::Unknown
    }
}

/// The display name of a result kind, used to name generic span events.
pub open spec fn result_kind_label(kind: ResultKind) -> Seq<char> {
    match kind {
        ResultKind::Unknown => "Unknown"@,
        ResultKind::FileLinked => "FileLinked"@,
        ResultKind::BuildLogLine => "BuildLogLine"@,
        ResultKind::UntrustedPath => "UntrustedPath"@,
        ResultKind::CorruptedPath => "CorruptedPath"@,
        ResultKind::SetPhase => "SetPhase"@,
        ResultKind::Progress => "Progress"@,
        ResultKind::SetExpected => "SetExpected"@,
        ResultKind::PostBuildLogLine => "PostBuildLogLine"@,
    }
}

impl ResultKind {
    /// Decode a host-supplied result-kind code; unknown codes are tolerated.
    pub fn from_code(code: u32) -> (r: ResultKind)
        ensures
            r == result_kind_of_code(code),
    {
        match code {
            100 => ResultKind::FileLinked,
            101 => ResultKind::BuildLogLine,
            102 => ResultKind::UntrustedPath,
            103 => ResultKind::CorruptedPath,
            104 => ResultKind::SetPhase,
            105 => ResultKind::Progress,
            106 => ResultKind::SetExpected,
            107 => ResultKind::PostBuildLogLine,
            _ => ResultKind::Unknown,
        }
    }

    /// The kind's display name.
    pub fn label(&self) -> (r: String)
        ensures
            r@ == result_kind_label(*self),
    {
        match self {
            ResultKind::Unknown => "Unknown".to_owned(),
            ResultKind::FileLinked => "FileLinked".to_owned(),
            ResultKind::BuildLogLine => "BuildLogLine".to_owned(),
            ResultKind::UntrustedPath => "UntrustedPath".to_owned(),
            ResultKind::CorruptedPath => "CorruptedPath".to_owned(),
            ResultKind::SetPhase => "SetPhase".to_owned(),
            ResultKind::Progress => "Progress".to_owned(),
            ResultKind::SetExpected => "SetExpected".to_owned(),
            ResultKind::PostBuildLogLine => "PostBuildLogLine".to_owned(),
        }
    }
}

/// A decoded, owned field value: either text or an unsigned number.
#[derive(Debug, Clone, PartialEq, Eq)]
pub enum Field {
    String(String),
    Num(u64),
}

/// Mathematical value of a `Field`.
pub ghost enum FieldV {
    S(Seq<char>),
    N(u64),
}

impl View for Field {
    type V = FieldV;

    open spec fn view(&self) -> FieldV {
        match self {
            Field::String(s) => FieldV::S(s@),
            Field::Num(n) => FieldV::N(*n),
        }
    }
}

/// A raw field as handed over by the host boundary, before validation:
/// string payloads are still untrusted byte ranges (already copied into
/// owned buffers; no raw memory reaches this type).
#[derive(Debug, Clone, PartialEq, Eq)]
pub enum RawField {
    Bytes(Vec<u8>),
    Num(u64),
}

/// Mathematical value of a `RawField`.
pub ghost enum RawFieldV {
    Bytes(Seq<u8>),
    N(u64),
}

impl View for RawField {
    type V = RawFieldV;

    open spec fn view(&self) -> RawFieldV {
        match self {
            RawField::Bytes(b) => RawFieldV::Bytes(b@),
            RawField::Num(n) => RawFieldV::N(*n),
        }
    }
}

/// Record describing one activity, created once at activity start.
#[derive(Debug, Clone)]
pub struct ActivityRecord {
    pub id: ActivityId,
    pub parent: Option<ActivityId>,
    pub name: String,
    pub kind: ActivityKind,
}

/// Mathematical value of an `ActivityRecord`.
pub ghost struct ActivityRecordV {
    pub id: u64,
    pub parent: Option<u64>,
    pub name: Seq<char>,
    pub kind: ActivityKind,
}

impl View for ActivityRecord {
    type V = ActivityRecordV;

    open spec fn view(&self) -> ActivityRecordV {
        ActivityRecordV {
            id: self.id.0,
            parent: match self.parent {
                Some(p) => Some(p.0),
                None => None,
            },
            name: self.name@,
            kind: self.kind,
        }
    }
}

/// Relies on `String::from_utf8`: returns the string decoded from the bytes
/// exactly when they are valid UTF-8, stated over vstd's UTF-8 model.
#[verifier::external_body]
fn utf8_to_string(bytes: &Vec<u8>) -> (r: Option<String>)
    ensures
        r is Some <==> valid_utf8(bytes@),
        r matches Some(s) ==> s@ == decode_utf8(bytes@),
{
    match String::from_utf8(bytes.clone()) {
        Ok(s) => Some(s),
        Err(_) => None,
    }
}

/// The decoded form of one raw field: numbers pass through, byte payloads
/// decode as UTF-8, and a payload that is not valid UTF-8 is rejected.
pub open spec fn unmarshal_field_spec(raw: RawFieldV) -> Option<FieldV> {
    match raw {
        RawFieldV::Bytes(b) => if valid_utf8(b) {
            Some(FieldV::S(decode_utf8(b)))
        } else {
            None
        },
        RawFieldV::N(n) => Some(FieldV::N(n)),
    }
}

/// Validate and convert one raw host field into an owned `Field`.
/// Invalid UTF-8 rejects that single field, never the whole sequence.
pub fn unmarshal_field(raw: &RawField) -> (r: Option<Field>)
    ensures
        match r {
            Some(f) => unmarshal_field_spec(raw@) == Some(f@),
            None => unmarshal_field_spec(raw@) is None,
        },
{
    match raw {
        RawField::Bytes(b) => match utf8_to_string(b) {
            Some(s) => Some(Field::String(s)),
            None => None,
        },
        RawField::Num(n) => Some(Field::Num(*n)),
    }
}

/// The decoded form of a raw field sequence: each field decodes
/// independently, and rejected fields are dropped.
pub open spec fn unmarshal_fields_spec(raws: Seq<RawFieldV>) -> Seq<FieldV>
    decreases raws.len(),
{
    if raws.len() == 0 {
        Seq::empty()
    } else {
        unmarshal_fields_spec(raws.drop_last()) + match unmarshal_field_spec(raws.last()) {
            Some(f) => seq![f],
            None => Seq::empty(),
        }
    }
}

/// The views of a decoded field vector.
pub open spec fn fields_view(fields: Seq<Field>) -> Seq<FieldV> {
    fields.map_values(|f: Field| f@)
}

/// The views of a raw field vector.
pub open spec fn raw_fields_view(raws: Seq<RawField>) -> Seq<RawFieldV> {
    raws.map_values(|f: RawField| f@)
}

/// Validate and convert a sequence of raw host fields, dropping any field
/// whose byte payload is not valid UTF-8. Never reads past the sequence.
pub fn unmarshal_fields(raws: &Vec<RawField>) -> (r: Vec<Field>)
    ensures
        fields_view(r@) == unmarshal_fields_spec(raw_fields_view(raws@)),
{
    let mut out: Vec<Field> = Vec::new();
    let mut i: usize = 0;
    while i < raws.len()
        invariant
            i <= raws.len(),
            fields_view(out@) == unmarshal_fields_spec(raw_fields_view(raws@.take(i as int))),
        decreases raws.len() - i,
    {
        let ghost prefix = raw_fields_view(raws@.take(i as int));
        match unmarshal_field(&raws[i]) {
            Some(f) => out.push(f),
            None => (),
        }
        i += 1;
        proof {
            assert(raw_fields_view(raws@.take(i as int)) =~= prefix.push(raws@[i - 1]@));
            assert(raw_fields_view(raws@.take(i as int)).drop_last() =~= prefix);
            assert(fields_view(out@) =~= unmarshal_fields_spec(
                raw_fields_view(raws@.take(i as int)),
            ));
        }
    }
    proof {
        assert(raws@.take(raws@.len() as int) =~= raws@);
    }
    out
}

} // verus!
