//! What the request log learns from a response as it passes: the usage member and a few short
//! scalars, without keeping the response.
use crate::json::{Json, JsonV, json_parsed, opt_view, parse_bytes};
use crate::text::{digits, list_has, str_eq, texts};
use vstd::prelude::*;
use vstd::utf8::*;

verus! {

/// Why the usage of a response could not be read.
#[derive(Clone, Copy, Debug, PartialEq, Eq, Structural)]
pub enum UsageFault {
    Failed,
    LimitExceeded,
}

impl UsageFault {
    pub open spec fn label_text(self) -> Seq<char> {
        match self {
            UsageFault::Failed => "usage_projection_failed"@,
            UsageFault::LimitExceeded => "usage_projection_limit_exceeded"@,
        }
    }

    /// The reason as the log names it.
    pub fn label(self) -> (r: &'static str)
        ensures
            r@ == self.label_text(),
    {
        match self {
            UsageFault::Failed => "usage_projection_failed",
            UsageFault::LimitExceeded => "usage_projection_limit_exceeded",
        }
    }
}

/// What may be kept of a usage member while it is read.
#[derive(Clone, Copy, Debug, PartialEq, Eq, Structural)]
pub struct UsageLimits {
    pub key_bytes: usize,
    pub scalar_bytes: usize,
    pub nesting_depth: usize,
}

/// The numbers of a usage member that are kept.
#[derive(Clone, Copy, Debug, PartialEq, Eq, Structural)]
pub enum ProjectedUsageField {
    Input,
    Output,
    CachedInput,
    CacheCreationInput,
    ReasoningOutput,
    Total,
}

pub open spec fn field_index(field: ProjectedUsageField) -> int {
    match field {
        ProjectedUsageField::Input => 0,
        ProjectedUsageField::Output => 1,
        ProjectedUsageField::CachedInput => 2,
        ProjectedUsageField::CacheCreationInput => 3,
        ProjectedUsageField::ReasoningOutput => 4,
        ProjectedUsageField::Total => 5,
    }
}

impl ProjectedUsageField {
    pub fn index(self) -> (r: usize)
        ensures
            r == field_index(self),
            r < 6,
    {
        match self {
            ProjectedUsageField::Input => 0,
            ProjectedUsageField::Output => 1,
            ProjectedUsageField::CachedInput => 2,
            ProjectedUsageField::CacheCreationInput => 3,
            ProjectedUsageField::ReasoningOutput => 4,
            ProjectedUsageField::Total => 5,
        }
    }
}

/// Which object of a usage member is being read.
#[derive(Clone, Copy, Debug, PartialEq, Eq, Structural)]
pub enum UsageObjectContext {
    Root,
    CachedDetails(u8),
    ReasoningDetails(u8),
    Other,
}

/// What a key of a usage member stands for. The smaller number of two spellings wins.
#[derive(Clone, Copy, Debug, PartialEq, Eq, Structural)]
pub enum ProjectedUsageKey {
    Field(ProjectedUsageField, u8),
    Object(UsageObjectContext),
    Other,
}

/// What may come next in an object or an array.
#[derive(Clone, Copy, Debug, PartialEq, Eq, Structural)]
pub enum UsageJsonState {
    ObjectKeyOrEnd,
    ObjectKey,
    ObjectColon,
    ObjectValue,
    ObjectCommaOrEnd,
    ArrayValueOrEnd,
    ArrayValue,
    ArrayCommaOrEnd,
}

/// An object or an array that is open. An array has no context.
#[derive(Clone, Copy, Debug, PartialEq, Eq, Structural)]
pub struct UsageContainer {
    pub context: Option<UsageObjectContext>,
    pub state: UsageJsonState,
    pub key: ProjectedUsageKey,
}

/// What a key of the outermost object stands for.
pub open spec fn root_key(key: Seq<char>) -> ProjectedUsageKey {
    if key == "input_tokens"@ {
        ProjectedUsageKey::Field(ProjectedUsageField::Input, 0)
    } else if key == "prompt_tokens"@ {
        ProjectedUsageKey::Field(ProjectedUsageField::Input, 1)
    } else if key == "inputTokens"@ {
        ProjectedUsageKey::Field(ProjectedUsageField::Input, 2)
    } else if key == "output_tokens"@ {
        ProjectedUsageKey::Field(ProjectedUsageField::Output, 0)
    } else if key == "completion_tokens"@ {
        ProjectedUsageKey::Field(ProjectedUsageField::Output, 1)
    } else if key == "outputTokens"@ {
        ProjectedUsageKey::Field(ProjectedUsageField::Output, 2)
    } else if key == "input_tokens_details"@ {
        ProjectedUsageKey::Object(UsageObjectContext::CachedDetails(0))
    } else if key == "prompt_tokens_details"@ {
        ProjectedUsageKey::Object(UsageObjectContext::CachedDetails(1))
    } else if key == "cache_read_input_tokens"@ {
        ProjectedUsageKey::Field(ProjectedUsageField::CachedInput, 2)
    } else if key == "cache_read_tokens"@ {
        ProjectedUsageKey::Field(ProjectedUsageField::CachedInput, 3)
    } else if key == "cached_input_tokens"@ {
        ProjectedUsageKey::Field(ProjectedUsageField::CachedInput, 4)
    } else if key == "cache_creation_input_tokens"@ {
        ProjectedUsageKey::Field(ProjectedUsageField::CacheCreationInput, 0)
    } else if key == "cache_creation_tokens"@ {
        ProjectedUsageKey::Field(ProjectedUsageField::CacheCreationInput, 1)
    } else if key == "cache_write_input_tokens"@ {
        ProjectedUsageKey::Field(ProjectedUsageField::CacheCreationInput, 2)
    } else if key == "output_tokens_details"@ {
        ProjectedUsageKey::Object(UsageObjectContext::ReasoningDetails(0))
    } else if key == "completion_tokens_details"@ {
        ProjectedUsageKey::Object(UsageObjectContext::ReasoningDetails(1))
    } else if key == "reasoning_tokens"@ {
        ProjectedUsageKey::Field(ProjectedUsageField::ReasoningOutput, 2)
    } else if key == "total_tokens"@ {
        ProjectedUsageKey::Field(ProjectedUsageField::Total, 0)
    } else if key == "totalTokens"@ {
        ProjectedUsageKey::Field(ProjectedUsageField::Total, 1)
    } else {
        ProjectedUsageKey::Other
    }
}

/// What a key stands for in an object.
pub open spec fn usage_key(context: UsageObjectContext, key: Seq<char>) -> ProjectedUsageKey {
    match context {
        UsageObjectContext::Root => root_key(key),
        UsageObjectContext::CachedDetails(priority) => if key == "cached_tokens"@ {
            ProjectedUsageKey::Field(ProjectedUsageField::CachedInput, priority)
        } else {
            ProjectedUsageKey::Other
        },
        UsageObjectContext::ReasoningDetails(priority) => if key == "reasoning_tokens"@ {
            ProjectedUsageKey::Field(ProjectedUsageField::ReasoningOutput, priority)
        } else {
            ProjectedUsageKey::Other
        },
        UsageObjectContext::Other => ProjectedUsageKey::Other,
    }
}

fn projected_root_key(key: &str) -> (r: ProjectedUsageKey)
    ensures
        r == root_key(key@),
{
    if str_eq(key, "input_tokens") {
        ProjectedUsageKey::Field(ProjectedUsageField::Input, 0)
    } else if str_eq(key, "prompt_tokens") {
        ProjectedUsageKey::Field(ProjectedUsageField::Input, 1)
    } else if str_eq(key, "inputTokens") {
        ProjectedUsageKey::Field(ProjectedUsageField::Input, 2)
    } else if str_eq(key, "output_tokens") {
        ProjectedUsageKey::Field(ProjectedUsageField::Output, 0)
    } else if str_eq(key, "completion_tokens") {
        ProjectedUsageKey::Field(ProjectedUsageField::Output, 1)
    } else if str_eq(key, "outputTokens") {
        ProjectedUsageKey::Field(ProjectedUsageField::Output, 2)
    } else if str_eq(key, "input_tokens_details") {
        ProjectedUsageKey::Object(UsageObjectContext::CachedDetails(0))
    } else if str_eq(key, "prompt_tokens_details") {
        ProjectedUsageKey::Object(UsageObjectContext::CachedDetails(1))
    } else if str_eq(key, "cache_read_input_tokens") {
        ProjectedUsageKey::Field(ProjectedUsageField::CachedInput, 2)
    } else if str_eq(key, "cache_read_tokens") {
        ProjectedUsageKey::Field(ProjectedUsageField::CachedInput, 3)
    } else if str_eq(key, "cached_input_tokens") {
        ProjectedUsageKey::Field(ProjectedUsageField::CachedInput, 4)
    } else if str_eq(key, "cache_creation_input_tokens") {
        ProjectedUsageKey::Field(ProjectedUsageField::CacheCreationInput, 0)
    } else if str_eq(key, "cache_creation_tokens") {
        ProjectedUsageKey::Field(ProjectedUsageField::CacheCreationInput, 1)
    } else if str_eq(key, "cache_write_input_tokens") {
        ProjectedUsageKey::Field(ProjectedUsageField::CacheCreationInput, 2)
    } else if str_eq(key, "output_tokens_details") {
        ProjectedUsageKey::Object(UsageObjectContext::ReasoningDetails(0))
    } else if str_eq(key, "completion_tokens_details") {
        ProjectedUsageKey::Object(UsageObjectContext::ReasoningDetails(1))
    } else if str_eq(key, "reasoning_tokens") {
        ProjectedUsageKey::Field(ProjectedUsageField::ReasoningOutput, 2)
    } else if str_eq(key, "total_tokens") {
        ProjectedUsageKey::Field(ProjectedUsageField::Total, 0)
    } else if str_eq(key, "totalTokens") {
        ProjectedUsageKey::Field(ProjectedUsageField::Total, 1)
    } else {
        ProjectedUsageKey::Other
    }
}

/// What a key stands for in an object.
pub fn projected_usage_key(context: UsageObjectContext, key: &str) -> (r: ProjectedUsageKey)
    ensures
        r == usage_key(context, key@),
{
    match context {
        UsageObjectContext::Root => projected_root_key(key),
        UsageObjectContext::CachedDetails(priority) => if str_eq(key, "cached_tokens") {
            ProjectedUsageKey::Field(ProjectedUsageField::CachedInput, priority)
        } else {
            ProjectedUsageKey::Other
        },
        UsageObjectContext::ReasoningDetails(priority) => if str_eq(key, "reasoning_tokens") {
            ProjectedUsageKey::Field(ProjectedUsageField::ReasoningOutput, priority)
        } else {
            ProjectedUsageKey::Other
        },
        UsageObjectContext::Other => ProjectedUsageKey::Other,
    }
}

/// A usage member as far as it has been read.
pub struct CaptureV {
    pub containers: Seq<UsageContainer>,
    pub values: Seq<Option<(u8, u64)>>,
    pub in_string: bool,
    pub escaped: bool,
    pub unicode_digits: u8,
    pub string_is_key: bool,
    pub string: Seq<u8>,
    pub string_overflow: bool,
    pub scalar: Seq<u8>,
    pub scalar_overflow: bool,
    pub scalar_field: Option<(ProjectedUsageField, u8)>,
}

/// The start of a usage member: its outermost object has just been opened.
pub open spec fn fresh_capture() -> CaptureV {
    CaptureV {
        containers: seq![
            UsageContainer {
                context: Some(UsageObjectContext::Root),
                state: UsageJsonState::ObjectKeyOrEnd,
                key: ProjectedUsageKey::Other,
            },
        ],
        values: Seq::new(6, |i: int| None),
        in_string: false,
        escaped: false,
        unicode_digits: 0,
        string_is_key: false,
        string: Seq::empty(),
        string_overflow: false,
        scalar: Seq::empty(),
        scalar_overflow: false,
        scalar_field: None,
    }
}

pub open spec fn is_hex(b: u8) -> bool {
    48 <= b <= 57 || 65 <= b <= 70 || 97 <= b <= 102
}

/// White space of ASCII.
pub open spec fn is_space(b: u8) -> bool {
    b == 32 || b == 9 || b == 10 || b == 12 || b == 13
}

/// The characters that may follow a backslash: `"`, `\`, `/`, `b`, `f`, `n`, `r`, `t`, `u`.
pub open spec fn is_escape(b: u8) -> bool {
    b == 34 || b == 92 || b == 47 || b == 98 || b == 102 || b == 110 || b == 114 || b == 116 || b
        == 117
}

pub open spec fn last_container(s: CaptureV) -> UsageContainer {
    s.containers[s.containers.len() - 1]
}

pub open spec fn with_last(s: CaptureV, c: UsageContainer) -> CaptureV {
    CaptureV { containers: s.containers.update(s.containers.len() - 1, c), ..s }
}

/// A key or a string has one more byte; only keys are kept, and only so much of them.
pub open spec fn record_byte(s: CaptureV, byte: u8, limits: UsageLimits) -> CaptureV {
    if s.string_is_key && !s.string_overflow {
        if s.string.len() < limits.key_bytes {
            CaptureV { string: s.string.push(byte), ..s }
        } else {
            CaptureV { string_overflow: true, ..s }
        }
    } else {
        s
    }
}

/// A key has ended. The document that its bytes are, between quotes, is given; one that is too
/// long is not looked at.
pub open spec fn key_end_with(s: CaptureV, parsed: Option<JsonV>) -> Result<CaptureV, UsageFault> {
    let c = last_container(s);
    if s.containers.len() == 0 || c.context is None || !(c.state == UsageJsonState::ObjectKeyOrEnd
        || c.state == UsageJsonState::ObjectKey) {
        Err(UsageFault::Failed)
    } else if s.string_overflow {
        Ok(
            with_last(
                s,
                UsageContainer {
                    key: ProjectedUsageKey::Other,
                    state: UsageJsonState::ObjectColon,
                    ..c
                },
            ),
        )
    } else {
        match parsed {
            Some(JsonV::Str(key)) => Ok(
                with_last(
                    s,
                    UsageContainer {
                        key: usage_key(c.context->0, key),
                        state: UsageJsonState::ObjectColon,
                        ..c
                    },
                ),
            ),
            _ => Err(UsageFault::Failed),
        }
    }
}

/// A key has ended.
pub open spec fn key_end(s: CaptureV) -> Result<CaptureV, UsageFault> {
    key_end_with(s, document_of(json_parsed(seq![34u8] + s.string + seq![34u8])))
}

/// A document that was read, if it could be.
pub open spec fn document_of(parsed: Result<JsonV, Seq<char>>) -> Option<JsonV> {
    match parsed {
        Ok(v) => Some(v),
        Err(_) => None,
    }
}

/// A byte inside a key or a string.
pub open spec fn string_byte(s: CaptureV, byte: u8, limits: UsageLimits) -> Result<
    CaptureV,
    UsageFault,
> {
    if s.unicode_digits > 0 {
        if is_hex(byte) {
            Ok(
                record_byte(
                    CaptureV { unicode_digits: (s.unicode_digits - 1) as u8, ..s },
                    byte,
                    limits,
                ),
            )
        } else {
            Err(UsageFault::Failed)
        }
    } else if s.escaped {
        if is_escape(byte) {
            let digits = if byte == 117 {
                4u8
            } else {
                s.unicode_digits
            };
            Ok(
                record_byte(
                    CaptureV { escaped: false, unicode_digits: digits, ..s },
                    byte,
                    limits,
                ),
            )
        } else {
            Err(UsageFault::Failed)
        }
    } else if byte == 92 {
        Ok(record_byte(CaptureV { escaped: true, ..s }, byte, limits))
    } else if byte == 34 {
        let closed = CaptureV { in_string: false, ..s };
        if s.string_is_key {
            key_end(closed)
        } else {
            Ok(closed)
        }
    } else if byte < 32 {
        Err(UsageFault::Failed)
    } else {
        Ok(record_byte(s, byte, limits))
    }
}

/// A number is kept unless one with a smaller number of its own is there.
pub open spec fn keep_value(
    values: Seq<Option<(u8, u64)>>,
    field: ProjectedUsageField,
    priority: u8,
    value: u64,
) -> Seq<Option<(u8, u64)>> {
    match values[field_index(field)] {
        Some((current, _)) => if priority <= current {
            values.update(field_index(field), Some((priority, value)))
        } else {
            values
        },
        None => values.update(field_index(field), Some((priority, value))),
    }
}

/// A scalar has ended. The document that its bytes are is given; one that is too long is not
/// looked at.
pub open spec fn scalar_end_with(s: CaptureV, parsed: Option<JsonV>) -> Result<
    CaptureV,
    UsageFault,
> {
    let cleared = CaptureV {
        scalar: Seq::empty(),
        scalar_overflow: false,
        scalar_field: None,
        ..s
    };
    if s.scalar_overflow {
        if s.scalar_field is Some {
            Err(UsageFault::Failed)
        } else {
            Ok(cleared)
        }
    } else {
        match parsed {
            None => Err(UsageFault::Failed),
            Some(value) => match (s.scalar_field, value.as_u64()) {
                (Some((field, priority)), Some(n)) => Ok(
                    CaptureV { values: keep_value(s.values, field, priority, n), ..cleared },
                ),
                _ => Ok(cleared),
            },
        }
    }
}

/// A scalar has ended.
pub open spec fn scalar_end(s: CaptureV) -> Result<CaptureV, UsageFault> {
    scalar_end_with(s, document_of(json_parsed(s.scalar)))
}

/// A value starts: where, and under which key.
pub open spec fn value_start(s: CaptureV) -> Result<(CaptureV, ProjectedUsageKey), UsageFault> {
    let c = last_container(s);
    if s.containers.len() == 0 {
        Err(UsageFault::Failed)
    } else if c.state == UsageJsonState::ObjectValue {
        Ok(
            (
                with_last(
                    s,
                    UsageContainer {
                        state: UsageJsonState::ObjectCommaOrEnd,
                        key: ProjectedUsageKey::Other,
                        ..c
                    },
                ),
                c.key,
            ),
        )
    } else if c.state == UsageJsonState::ArrayValueOrEnd || c.state == UsageJsonState::ArrayValue {
        Ok(
            (
                with_last(s, UsageContainer { state: UsageJsonState::ArrayCommaOrEnd, ..c }),
                ProjectedUsageKey::Other,
            ),
        )
    } else {
        Err(UsageFault::Failed)
    }
}

/// A quote outside a string opens a key or a value.
pub open spec fn quote_byte(s: CaptureV) -> Result<CaptureV, UsageFault> {
    let c = last_container(s);
    let is_key = c.state == UsageJsonState::ObjectKeyOrEnd || c.state == UsageJsonState::ObjectKey;
    if s.containers.len() == 0 {
        Err(UsageFault::Failed)
    } else {
        let opened = if is_key {
            Ok(s)
        } else {
            match value_start(s) {
                Ok((t, _)) => Ok(t),
                Err(e) => Err(e),
            }
        };
        match opened {
            Err(e) => Err(e),
            Ok(t) => Ok(
                CaptureV {
                    string_is_key: is_key,
                    string: Seq::empty(),
                    string_overflow: false,
                    in_string: true,
                    escaped: false,
                    unicode_digits: 0,
                    ..t
                },
            ),
        }
    }
}

/// A bracket opens an object or an array.
pub open spec fn open_byte(s: CaptureV, byte: u8, limits: UsageLimits) -> Result<
    CaptureV,
    UsageFault,
> {
    match value_start(s) {
        Err(e) => Err(e),
        Ok((t, key)) => if t.containers.len() >= limits.nesting_depth {
            Err(UsageFault::LimitExceeded)
        } else {
            let inner = if byte == 123 {
                UsageContainer {
                    context: Some(
                        match key {
                            ProjectedUsageKey::Object(context) => context,
                            _ => UsageObjectContext::Other,
                        },
                    ),
                    state: UsageJsonState::ObjectKeyOrEnd,
                    key: ProjectedUsageKey::Other,
                }
            } else {
                UsageContainer {
                    context: None,
                    state: UsageJsonState::ArrayValueOrEnd,
                    key: ProjectedUsageKey::Other,
                }
            };
            Ok(CaptureV { containers: t.containers.push(inner), ..t })
        },
    }
}

/// A bracket closes the innermost object or array.
pub open spec fn close_byte(s: CaptureV, byte: u8) -> Result<CaptureV, UsageFault> {
    let c = last_container(s);
    let fits = if byte == 125 {
        c.context is Some && (c.state == UsageJsonState::ObjectKeyOrEnd || c.state
            == UsageJsonState::ObjectCommaOrEnd)
    } else {
        c.context is None && (c.state == UsageJsonState::ArrayValueOrEnd || c.state
            == UsageJsonState::ArrayCommaOrEnd)
    };
    if s.containers.len() == 0 || !fits {
        Err(UsageFault::Failed)
    } else {
        Ok(CaptureV { containers: s.containers.drop_last(), ..s })
    }
}

/// A colon or a comma.
pub open spec fn mark_byte(s: CaptureV, byte: u8) -> Result<CaptureV, UsageFault> {
    let c = last_container(s);
    if s.containers.len() == 0 {
        Err(UsageFault::Failed)
    } else if byte == 58 && c.state == UsageJsonState::ObjectColon {
        Ok(with_last(s, UsageContainer { state: UsageJsonState::ObjectValue, ..c }))
    } else if byte == 44 && c.state == UsageJsonState::ObjectCommaOrEnd {
        Ok(with_last(s, UsageContainer { state: UsageJsonState::ObjectKey, ..c }))
    } else if byte == 44 && c.state == UsageJsonState::ArrayCommaOrEnd {
        Ok(with_last(s, UsageContainer { state: UsageJsonState::ArrayValue, ..c }))
    } else {
        Err(UsageFault::Failed)
    }
}

/// The bytes with which a number, `true`, `false` or `null` starts.
pub open spec fn starts_scalar(b: u8) -> bool {
    b == 45 || 48 <= b <= 57 || b == 116 || b == 102 || b == 110
}

/// A scalar starts.
pub open spec fn scalar_start(s: CaptureV, byte: u8) -> Result<CaptureV, UsageFault> {
    match value_start(s) {
        Err(e) => Err(e),
        Ok((t, key)) => Ok(
            CaptureV {
                scalar: seq![byte],
                scalar_overflow: false,
                scalar_field: match key {
                    ProjectedUsageKey::Field(field, priority) => Some((field, priority)),
                    _ => None,
                },
                ..t
            },
        ),
    }
}

/// A byte outside strings and scalars.
pub open spec fn structure_byte(s: CaptureV, byte: u8, limits: UsageLimits) -> Result<
    CaptureV,
    UsageFault,
> {
    if is_space(byte) {
        Ok(s)
    } else if byte == 34 {
        quote_byte(s)
    } else if byte == 123 || byte == 91 {
        open_byte(s, byte, limits)
    } else if byte == 125 || byte == 93 {
        close_byte(s, byte)
    } else if byte == 58 || byte == 44 {
        mark_byte(s, byte)
    } else if starts_scalar(byte) {
        scalar_start(s, byte)
    } else {
        Err(UsageFault::Failed)
    }
}

/// The bytes that end a scalar.
pub open spec fn ends_scalar(b: u8) -> bool {
    is_space(b) || b == 44 || b == 125 || b == 93
}

/// A usage member after one more byte.
pub open spec fn capture_byte(s: CaptureV, byte: u8, limits: UsageLimits) -> Result<
    CaptureV,
    UsageFault,
> {
    if s.in_string {
        string_byte(s, byte, limits)
    } else if s.scalar.len() > 0 || s.scalar_overflow {
        if ends_scalar(byte) {
            match scalar_end(s) {
                Err(e) => Err(e),
                Ok(t) => structure_byte(t, byte, limits),
            }
        } else if s.scalar.len() < limits.scalar_bytes {
            Ok(CaptureV { scalar: s.scalar.push(byte), ..s })
        } else {
            Ok(CaptureV { scalar_overflow: true, ..s })
        }
    } else {
        structure_byte(s, byte, limits)
    }
}

/// What a byte that does not fit leaves, outside strings and scalars: a value that would be too
/// deep has been begun, and a quote out of place opens no key.
pub open spec fn structure_fault(s: CaptureV, byte: u8) -> CaptureV {
    if byte == 34 && s.containers.len() > 0 {
        CaptureV { string_is_key: false, ..s }
    } else if byte == 123 || byte == 91 {
        match value_start(s) {
            Ok((t, _)) => t,
            Err(_) => s,
        }
    } else {
        s
    }
}

/// What a byte that does not fit leaves of a usage member.
pub open spec fn capture_fault(s: CaptureV, byte: u8) -> CaptureV {
    if s.in_string {
        if s.unicode_digits == 0 && !s.escaped && byte == 34 {
            CaptureV { in_string: false, ..s }
        } else {
            s
        }
    } else if s.scalar.len() > 0 || s.scalar_overflow {
        match scalar_end(s) {
            Ok(t) => structure_fault(t, byte),
            Err(_) => s,
        }
    } else {
        structure_fault(s, byte)
    }
}

/// What is kept while a usage member is read stays within the limits, whatever the upstream sends.
pub open spec fn capture_bounded(s: CaptureV, limits: UsageLimits) -> bool {
    &&& s.values.len() == 6
    &&& s.string.len() <= limits.key_bytes
    &&& s.scalar.len() <= limits.scalar_bytes || s.scalar.len() == 1
    &&& s.containers.len() <= limits.nesting_depth || s.containers.len() == 1
    &&& s.unicode_digits <= 4
}

/// Reading one more byte keeps within the limits.
pub proof fn capture_stays_bounded(s: CaptureV, byte: u8, limits: UsageLimits)
    requires
        capture_bounded(s, limits),
        capture_byte(s, byte, limits) is Ok,
    ensures
        capture_bounded(capture_byte(s, byte, limits)->Ok_0, limits),
{
}

fn byte_is_hex(b: u8) -> (r: bool)
    ensures
        r == is_hex(b),
{
    (48 <= b && b <= 57) || (65 <= b && b <= 70) || (97 <= b && b <= 102)
}

fn byte_is_space(b: u8) -> (r: bool)
    ensures
        r == is_space(b),
{
    b == 32 || b == 9 || b == 10 || b == 12 || b == 13
}

fn byte_is_escape(b: u8) -> (r: bool)
    ensures
        r == is_escape(b),
{
    b == 34 || b == 92 || b == 47 || b == 98 || b == 102 || b == 110 || b == 114 || b == 116 || b
        == 117
}

/// Reads a usage member byte by byte.
pub struct UsageCapture {
    pub limits: UsageLimits,
    pub containers: Vec<UsageContainer>,
    pub values: Vec<Option<(u8, u64)>>,
    pub in_string: bool,
    pub escaped: bool,
    pub unicode_escape_digits: u8,
    pub string_is_key: bool,
    pub string: Vec<u8>,
    pub string_overflow: bool,
    pub scalar: Vec<u8>,
    pub scalar_overflow: bool,
    pub scalar_field: Option<(ProjectedUsageField, u8)>,
}

impl View for UsageCapture {
    type V = CaptureV;

    open spec fn view(&self) -> CaptureV {
        CaptureV {
            containers: self.containers@,
            values: self.values@,
            in_string: self.in_string,
            escaped: self.escaped,
            unicode_digits: self.unicode_escape_digits,
            string_is_key: self.string_is_key,
            string: self.string@,
            string_overflow: self.string_overflow,
            scalar: self.scalar@,
            scalar_overflow: self.scalar_overflow,
            scalar_field: self.scalar_field,
        }
    }
}

impl UsageCapture {
    /// Six numbers are kept.
    pub open spec fn inv(&self) -> bool {
        self.values.len() == 6
    }

    pub fn new(limits: UsageLimits) -> (r: UsageCapture)
        ensures
            r.inv(),
            r.limits == limits,
            r@ == fresh_capture(),
    {
        let mut containers: Vec<UsageContainer> = Vec::new();
        containers.push(
            UsageContainer {
                context: Some(UsageObjectContext::Root),
                state: UsageJsonState::ObjectKeyOrEnd,
                key: ProjectedUsageKey::Other,
            },
        );
        let values: Vec<Option<(u8, u64)>> = vec![None, None, None, None, None, None];
        let r = UsageCapture {
            limits,
            containers,
            values,
            in_string: false,
            escaped: false,
            unicode_escape_digits: 0,
            string_is_key: false,
            string: Vec::new(),
            string_overflow: false,
            scalar: Vec::new(),
            scalar_overflow: false,
            scalar_field: None,
        };
        proof {
            assert(r@.containers =~= fresh_capture().containers);
            assert(r@.values =~= fresh_capture().values);
            assert(r@.string =~= Seq::<u8>::empty());
            assert(r@.scalar =~= Seq::<u8>::empty());
        }
        r
    }

    /// A value starts: the key that it stands under.
    pub fn begin_value(&mut self) -> (r: Result<ProjectedUsageKey, UsageFault>)
        ensures
            final(self).limits == old(self).limits,
            match r {
                Ok(key) => value_start(old(self)@) == Ok::<
                    (CaptureV, ProjectedUsageKey),
                    UsageFault,
                >((final(self)@, key)),
                Err(e) => value_start(old(self)@) == Err::<
                    (CaptureV, ProjectedUsageKey),
                    UsageFault,
                >(e) && final(self)@ == old(self)@,
            },
    {
        let n = self.containers.len();
        if n == 0 {
            return Err(UsageFault::Failed);
        }
        let c = self.containers[n - 1];
        match c.state {
            UsageJsonState::ObjectValue => {
                self.containers.set(
                    n - 1,
                    UsageContainer {
                        context: c.context,
                        state: UsageJsonState::ObjectCommaOrEnd,
                        key: ProjectedUsageKey::Other,
                    },
                );
                Ok(c.key)
            },
            UsageJsonState::ArrayValueOrEnd | UsageJsonState::ArrayValue => {
                self.containers.set(
                    n - 1,
                    UsageContainer {
                        context: c.context,
                        state: UsageJsonState::ArrayCommaOrEnd,
                        key: c.key,
                    },
                );
                Ok(ProjectedUsageKey::Other)
            },
            _ => Err(UsageFault::Failed),
        }
    }

    /// A key has ended. What its bytes are, between quotes, as a document is handed in.
    pub fn end_key(&mut self, parsed: Option<&Json>) -> (r: Result<(), UsageFault>)
        ensures
            final(self).limits == old(self).limits,
            final(self).values == old(self).values,
            match r {
                Ok(()) => key_end_with(old(self)@, opt_view(parsed)) == Ok::<CaptureV, UsageFault>(
                    final(self)@,
                ),
                Err(e) => key_end_with(old(self)@, opt_view(parsed)) == Err::<CaptureV, UsageFault>(
                    e,
                ) && final(self)@ == old(self)@,
            },
    {
        let n = self.containers.len();
        if n == 0 {
            return Err(UsageFault::Failed);
        }
        let c = self.containers[n - 1];
        let context = match c.context {
            Some(x) => x,
            None => {
                return Err(UsageFault::Failed);
            },
        };
        match c.state {
            UsageJsonState::ObjectKeyOrEnd | UsageJsonState::ObjectKey => {},
            _ => {
                return Err(UsageFault::Failed);
            },
        }
        let key = if self.string_overflow {
            ProjectedUsageKey::Other
        } else {
            match parsed {
                Some(json) => match json.as_str() {
                    Some(name) => projected_usage_key(context, name),
                    None => {
                        return Err(UsageFault::Failed);
                    },
                },
                None => {
                    return Err(UsageFault::Failed);
                },
            }
        };
        self.containers.set(
            n - 1,
            UsageContainer { context: c.context, state: UsageJsonState::ObjectColon, key },
        );
        Ok(())
    }

    /// A key has ended. Where it does not fit, nothing changes.
    pub fn finish_key(&mut self) -> (r: Result<(), UsageFault>)
        ensures
            final(self).limits == old(self).limits,
            final(self).values == old(self).values,
            match r {
                Ok(()) => key_end(old(self)@) == Ok::<CaptureV, UsageFault>(final(self)@),
                Err(e) => key_end(old(self)@) == Err::<CaptureV, UsageFault>(e) && final(self)@
                    == old(self)@,
            },
    {
        let mut encoded: Vec<u8> = Vec::new();
        encoded.push(34);
        let mut i: usize = 0;
        while i < self.string.len()
            invariant
                i <= self.string.len(),
                encoded@ == seq![34u8] + self.string@.subrange(0, i as int),
            decreases self.string.len() - i,
        {
            encoded.push(self.string[i]);
            i = i + 1;
            proof {
                assert(encoded@ =~= seq![34u8] + self.string@.subrange(0, i as int));
            }
        }
        encoded.push(34);
        proof {
            assert(encoded@ =~= seq![34u8] + self.string@ + seq![34u8]);
        }
        match parse_bytes(encoded.as_slice()) {
            Ok(json) => self.end_key(Some(&json)),
            Err(_) => self.end_key(None),
        }
    }

    /// A scalar has ended. What its bytes are as a document is handed in.
    pub fn end_scalar(&mut self, parsed: Option<&Json>) -> (r: Result<(), UsageFault>)
        requires
            old(self).inv(),
        ensures
            final(self).inv(),
            final(self).limits == old(self).limits,
            match r {
                Ok(()) => scalar_end_with(old(self)@, opt_view(parsed)) == Ok::<
                    CaptureV,
                    UsageFault,
                >(final(self)@),
                Err(e) => scalar_end_with(old(self)@, opt_view(parsed)) == Err::<
                    CaptureV,
                    UsageFault,
                >(e) && final(self)@ == old(self)@,
            },
    {
        if self.scalar_overflow {
            if self.scalar_field.is_some() {
                return Err(UsageFault::Failed);
            }
        } else {
            let value = match parsed {
                Some(v) => v,
                None => {
                    return Err(UsageFault::Failed);
                },
            };
            if let Some((field, priority)) = self.scalar_field {
                if let Some(number) = value.as_u64() {
                    let i = field.index();
                    let free = match self.values[i] {
                        Some((current, _)) => priority <= current,
                        None => true,
                    };
                    if free {
                        self.values.set(i, Some((priority, number)));
                    }
                }
            }
        }
        self.scalar.clear();
        self.scalar_overflow = false;
        self.scalar_field = None;
        proof {
            assert(self.scalar@ =~= Seq::<u8>::empty());
        }
        Ok(())
    }

    /// A scalar has ended. Where it is none, nothing changes.
    pub fn finish_scalar(&mut self) -> (r: Result<(), UsageFault>)
        requires
            old(self).inv(),
        ensures
            final(self).inv(),
            final(self).limits == old(self).limits,
            match r {
                Ok(()) => scalar_end(old(self)@) == Ok::<CaptureV, UsageFault>(final(self)@),
                Err(e) => scalar_end(old(self)@) == Err::<CaptureV, UsageFault>(e) && final(self)@
                    == old(self)@,
            },
    {
        match parse_bytes(self.scalar.as_slice()) {
            Ok(json) => self.end_scalar(Some(&json)),
            Err(_) => self.end_scalar(None),
        }
    }

    fn observe_string_byte(&mut self, byte: u8) -> (r: Result<(), UsageFault>)
        requires
            old(self).inv(),
            old(self).in_string,
        ensures
            final(self).inv(),
            final(self).limits == old(self).limits,
            match r {
                Ok(()) => string_byte(old(self)@, byte, old(self).limits) == Ok::<
                    CaptureV,
                    UsageFault,
                >(final(self)@),
                Err(e) => string_byte(old(self)@, byte, old(self).limits) == Err::<
                    CaptureV,
                    UsageFault,
                >(e) && final(self)@ == capture_fault(old(self)@, byte),
            },
    {
        if self.unicode_escape_digits > 0 {
            if !byte_is_hex(byte) {
                return Err(UsageFault::Failed);
            }
            self.unicode_escape_digits = self.unicode_escape_digits - 1;
        } else if self.escaped {
            if !byte_is_escape(byte) {
                return Err(UsageFault::Failed);
            }
            self.escaped = false;
            if byte == 117 {
                self.unicode_escape_digits = 4;
            }
        } else if byte == 92 {
            self.escaped = true;
        } else if byte == 34 {
            self.in_string = false;
            if self.string_is_key {
                return self.finish_key();
            }
            return Ok(());
        } else if byte < 32 {
            return Err(UsageFault::Failed);
        }
        if self.string_is_key && !self.string_overflow {
            if self.string.len() < self.limits.key_bytes {
                self.string.push(byte);
            } else {
                self.string_overflow = true;
            }
        }
        Ok(())
    }

    fn observe_quote(&mut self) -> (r: Result<(), UsageFault>)
        requires
            old(self).inv(),
        ensures
            final(self).inv(),
            final(self).limits == old(self).limits,
            match r {
                Ok(()) => quote_byte(old(self)@) == Ok::<CaptureV, UsageFault>(final(self)@),
                Err(e) => quote_byte(old(self)@) == Err::<CaptureV, UsageFault>(e) && final(self)@
                    == structure_fault(old(self)@, 34),
            },
    {
        let n = self.containers.len();
        if n == 0 {
            return Err(UsageFault::Failed);
        }
        let is_key = match self.containers[n - 1].state {
            UsageJsonState::ObjectKeyOrEnd | UsageJsonState::ObjectKey => true,
            _ => false,
        };
        self.string_is_key = is_key;
        if !is_key {
            if let Err(e) = self.begin_value() {
                return Err(e);
            }
        }
        self.string.clear();
        self.string_overflow = false;
        self.in_string = true;
        self.escaped = false;
        self.unicode_escape_digits = 0;
        proof {
            assert(self.string@ =~= Seq::<u8>::empty());
        }
        Ok(())
    }

    fn observe_open(&mut self, byte: u8) -> (r: Result<(), UsageFault>)
        requires
            old(self).inv(),
            byte == 123 || byte == 91,
        ensures
            final(self).inv(),
            final(self).limits == old(self).limits,
            match r {
                Ok(()) => open_byte(old(self)@, byte, old(self).limits) == Ok::<
                    CaptureV,
                    UsageFault,
                >(final(self)@),
                Err(e) => open_byte(old(self)@, byte, old(self).limits) == Err::<
                    CaptureV,
                    UsageFault,
                >(e) && final(self)@ == structure_fault(old(self)@, byte),
            },
    {
        let key = match self.begin_value() {
            Ok(k) => k,
            Err(e) => {
                return Err(e);
            },
        };
        if self.containers.len() >= self.limits.nesting_depth {
            return Err(UsageFault::LimitExceeded);
        }
        let inner = if byte == 123 {
            UsageContainer {
                context: Some(
                    match key {
                        ProjectedUsageKey::Object(context) => context,
                        _ => UsageObjectContext::Other,
                    },
                ),
                state: UsageJsonState::ObjectKeyOrEnd,
                key: ProjectedUsageKey::Other,
            }
        } else {
            UsageContainer {
                context: None,
                state: UsageJsonState::ArrayValueOrEnd,
                key: ProjectedUsageKey::Other,
            }
        };
        self.containers.push(inner);
        Ok(())
    }

    fn observe_close(&mut self, byte: u8) -> (r: Result<(), UsageFault>)
        requires
            old(self).inv(),
        ensures
            final(self).inv(),
            final(self).limits == old(self).limits,
            match r {
                Ok(()) => close_byte(old(self)@, byte) == Ok::<CaptureV, UsageFault>(final(self)@),
                Err(e) => close_byte(old(self)@, byte) == Err::<CaptureV, UsageFault>(e)
                    && final(self)@ == old(self)@,
            },
    {
        let n = self.containers.len();
        if n == 0 {
            return Err(UsageFault::Failed);
        }
        let c = self.containers[n - 1];
        let fits = if byte == 125 {
            c.context.is_some() && (match c.state {
                UsageJsonState::ObjectKeyOrEnd | UsageJsonState::ObjectCommaOrEnd => true,
                _ => false,
            })
        } else {
            c.context.is_none() && (match c.state {
                UsageJsonState::ArrayValueOrEnd | UsageJsonState::ArrayCommaOrEnd => true,
                _ => false,
            })
        };
        if !fits {
            return Err(UsageFault::Failed);
        }
        let _ = self.containers.pop();
        proof {
            assert(self.containers@ =~= old(self).containers@.drop_last());
        }
        Ok(())
    }

    fn observe_mark(&mut self, byte: u8) -> (r: Result<(), UsageFault>)
        requires
            old(self).inv(),
        ensures
            final(self).inv(),
            final(self).limits == old(self).limits,
            match r {
                Ok(()) => mark_byte(old(self)@, byte) == Ok::<CaptureV, UsageFault>(final(self)@),
                Err(e) => mark_byte(old(self)@, byte) == Err::<CaptureV, UsageFault>(e)
                    && final(self)@ == old(self)@,
            },
    {
        let n = self.containers.len();
        if n == 0 {
            return Err(UsageFault::Failed);
        }
        let c = self.containers[n - 1];
        let state = match c.state {
            UsageJsonState::ObjectColon => if byte == 58 {
                UsageJsonState::ObjectValue
            } else {
                return Err(UsageFault::Failed);
            },
            UsageJsonState::ObjectCommaOrEnd => if byte == 44 {
                UsageJsonState::ObjectKey
            } else {
                return Err(UsageFault::Failed);
            },
            UsageJsonState::ArrayCommaOrEnd => if byte == 44 {
                UsageJsonState::ArrayValue
            } else {
                return Err(UsageFault::Failed);
            },
            _ => {
                return Err(UsageFault::Failed);
            },
        };
        self.containers.set(n - 1, UsageContainer { context: c.context, state, key: c.key });
        Ok(())
    }

    fn observe_scalar_start(&mut self, byte: u8) -> (r: Result<(), UsageFault>)
        requires
            old(self).inv(),
        ensures
            final(self).inv(),
            final(self).limits == old(self).limits,
            match r {
                Ok(()) => scalar_start(old(self)@, byte) == Ok::<CaptureV, UsageFault>(
                    final(self)@,
                ),
                Err(e) => scalar_start(old(self)@, byte) == Err::<CaptureV, UsageFault>(e)
                    && final(self)@ == old(self)@,
            },
    {
        let key = match self.begin_value() {
            Ok(k) => k,
            Err(e) => {
                return Err(e);
            },
        };
        self.scalar.clear();
        self.scalar.push(byte);
        self.scalar_overflow = false;
        self.scalar_field = match key {
            ProjectedUsageKey::Field(field, priority) => Some((field, priority)),
            _ => None,
        };
        proof {
            assert(self.scalar@ =~= seq![byte]);
        }
        Ok(())
    }

    fn observe_structure(&mut self, byte: u8) -> (r: Result<(), UsageFault>)
        requires
            old(self).inv(),
        ensures
            final(self).inv(),
            final(self).limits == old(self).limits,
            match r {
                Ok(()) => structure_byte(old(self)@, byte, old(self).limits) == Ok::<
                    CaptureV,
                    UsageFault,
                >(final(self)@),
                Err(e) => structure_byte(old(self)@, byte, old(self).limits) == Err::<
                    CaptureV,
                    UsageFault,
                >(e) && final(self)@ == structure_fault(old(self)@, byte),
            },
    {
        if byte_is_space(byte) {
            Ok(())
        } else if byte == 34 {
            self.observe_quote()
        } else if byte == 123 || byte == 91 {
            self.observe_open(byte)
        } else if byte == 125 || byte == 93 {
            self.observe_close(byte)
        } else if byte == 58 || byte == 44 {
            self.observe_mark(byte)
        } else if byte == 45 || (48 <= byte && byte <= 57) || byte == 116 || byte == 102 || byte
            == 110 {
            self.observe_scalar_start(byte)
        } else {
            Err(UsageFault::Failed)
        }
    }

    /// Takes in one byte. Says whether the usage member has ended.
    pub fn observe_byte(&mut self, byte: u8) -> (r: Result<bool, UsageFault>)
        requires
            old(self).inv(),
        ensures
            final(self).inv(),
            final(self).limits == old(self).limits,
            match r {
                Ok(ended) => capture_byte(old(self)@, byte, old(self).limits) == Ok::<
                    CaptureV,
                    UsageFault,
                >(final(self)@) && ended == member_ended(old(self)@, final(self)@, byte),
                Err(e) => capture_byte(old(self)@, byte, old(self).limits) == Err::<
                    CaptureV,
                    UsageFault,
                >(e) && final(self)@ == capture_fault(old(self)@, byte),
            },
    {
        if self.in_string {
            return match self.observe_string_byte(byte) {
                Ok(()) => Ok(false),
                Err(e) => Err(e),
            };
        }
        if self.scalar.len() > 0 || self.scalar_overflow {
            if byte_is_space(byte) || byte == 44 || byte == 125 || byte == 93 {
                if let Err(e) = self.finish_scalar() {
                    return Err(e);
                }
            } else {
                if self.scalar.len() < self.limits.scalar_bytes {
                    self.scalar.push(byte);
                } else {
                    self.scalar_overflow = true;
                }
                return Ok(false);
            }
        }
        match self.observe_structure(byte) {
            Err(e) => Err(e),
            Ok(()) => Ok(byte == 125 && self.containers.len() == 0),
        }
    }

    /// The numbers that were kept, in one spelling.
    pub fn into_value(self) -> (r: Json)
        requires
            self.inv(),
        ensures
            r@ == usage_value(self@),
    {
        let cached = Json::obj().with("cached_tokens", self.number(2));
        let reasoning = Json::obj().with("reasoning_tokens", self.number(4));
        Json::obj().with("input_tokens", self.number(0)).with(
            "output_tokens",
            self.number(1),
        ).with("input_tokens_details", cached).with(
            "cache_creation_input_tokens",
            self.number(3),
        ).with("output_tokens_details", reasoning).with("total_tokens", self.number(5))
    }

    fn number(&self, i: usize) -> (r: Json)
        requires
            self.inv(),
            i < 6,
        ensures
            r@ == kept_number(self@, i as int),
    {
        match self.values[i] {
            Some((_, n)) => Json::unsigned(n),
            None => Json::null(),
        }
    }
}

/// The outermost object has been closed by this byte.
pub open spec fn member_ended(before: CaptureV, after: CaptureV, byte: u8) -> bool {
    !before.in_string && byte == 125 && after.containers.len() == 0
}

/// A number that was kept, or null.
pub open spec fn kept_number(s: CaptureV, i: int) -> JsonV {
    match s.values[i] {
        Some((_, n)) => JsonV::Unsigned(n),
        None => JsonV::Null,
    }
}

/// The numbers that were kept, in one spelling.
pub open spec fn usage_value(s: CaptureV) -> JsonV {
    JsonV::obj().with("input_tokens"@, kept_number(s, 0)).with(
        "output_tokens"@,
        kept_number(s, 1),
    ).with(
        "input_tokens_details"@,
        JsonV::obj().with("cached_tokens"@, kept_number(s, 2)),
    ).with("cache_creation_input_tokens"@, kept_number(s, 3)).with(
        "output_tokens_details"@,
        JsonV::obj().with("reasoning_tokens"@, kept_number(s, 4)),
    ).with("total_tokens"@, kept_number(s, 5))
}

/// The text that `String::from_utf8_lossy` of std makes of bytes.
pub uninterp spec fn lossy_text(bytes: Seq<u8>) -> Seq<char>;

/// `String::from_utf8_lossy` of std: the text that the bytes encode; bytes that are no UTF-8 give
/// way to the replacement character.
#[verifier::external_body]
pub(crate) fn text_lossy(bytes: &[u8]) -> (r: String)
    ensures
        r@ == lossy_text(bytes@),
        valid_utf8(bytes@) ==> r@ == decode_utf8(bytes@),
{
    String::from_utf8_lossy(bytes).into_owned()
}

/// The members that the log looks for.
#[derive(Clone, Copy, Debug, PartialEq, Eq, Structural)]
pub enum ProjectedMetadataKey {
    Usage,
    Type,
    Delta,
    Status,
    Code,
}

/// The short scalars that the log reads.
#[derive(Clone, Copy, Debug, PartialEq, Eq, Structural)]
pub enum ProjectedMetadataScalar {
    EventType,
    Delta,
    ResponseStatus,
    ErrorCode,
}

/// The bytes of `usage`, `type`, `delta`, `status` and `code`.
pub open spec fn metadata_key(s: Seq<u8>) -> Option<ProjectedMetadataKey> {
    if s == seq![117u8, 115u8, 97u8, 103u8, 101u8] {
        Some(ProjectedMetadataKey::Usage)
    } else if s == seq![116u8, 121u8, 112u8, 101u8] {
        Some(ProjectedMetadataKey::Type)
    } else if s == seq![100u8, 101u8, 108u8, 116u8, 97u8] {
        Some(ProjectedMetadataKey::Delta)
    } else if s == seq![115u8, 116u8, 97u8, 116u8, 117u8, 115u8] {
        Some(ProjectedMetadataKey::Status)
    } else if s == seq![99u8, 111u8, 100u8, 101u8] {
        Some(ProjectedMetadataKey::Code)
    } else {
        None
    }
}

fn bytes_equal(a: &Vec<u8>, b: &Vec<u8>) -> (r: bool)
    ensures
        r == (a@ == b@),
{
    if a.len() != b.len() {
        return false;
    }
    let mut i: usize = 0;
    while i < a.len()
        invariant
            i <= a.len(),
            a.len() == b.len(),
            forall|j: int| 0 <= j < i ==> a@[j] == b@[j],
        decreases a.len() - i,
    {
        if a[i] != b[i] {
            return false;
        }
        i = i + 1;
    }
    proof {
        assert(a@ =~= b@);
    }
    true
}

/// Which member a key names.
pub fn projected_metadata_key(s: &Vec<u8>) -> (r: Option<ProjectedMetadataKey>)
    ensures
        r == metadata_key(s@),
{
    let usage: Vec<u8> = vec![117u8, 115u8, 97u8, 103u8, 101u8];
    let kind: Vec<u8> = vec![116u8, 121u8, 112u8, 101u8];
    let delta: Vec<u8> = vec![100u8, 101u8, 108u8, 116u8, 97u8];
    let status: Vec<u8> = vec![115u8, 116u8, 97u8, 116u8, 117u8, 115u8];
    let code: Vec<u8> = vec![99u8, 111u8, 100u8, 101u8];
    proof {
        assert(usage@ =~= seq![117u8, 115u8, 97u8, 103u8, 101u8]);
        assert(kind@ =~= seq![116u8, 121u8, 112u8, 101u8]);
        assert(delta@ =~= seq![100u8, 101u8, 108u8, 116u8, 97u8]);
        assert(status@ =~= seq![115u8, 116u8, 97u8, 116u8, 117u8, 115u8]);
        assert(code@ =~= seq![99u8, 111u8, 100u8, 101u8]);
    }
    if bytes_equal(s, &usage) {
        Some(ProjectedMetadataKey::Usage)
    } else if bytes_equal(s, &kind) {
        Some(ProjectedMetadataKey::Type)
    } else if bytes_equal(s, &delta) {
        Some(ProjectedMetadataKey::Delta)
    } else if bytes_equal(s, &status) {
        Some(ProjectedMetadataKey::Status)
    } else if bytes_equal(s, &code) {
        Some(ProjectedMetadataKey::Code)
    } else {
        None
    }
}

/// What the log is told.
#[derive(Debug)]
pub enum ProbeEvent {
    /// The numbers of a usage member.
    Usage(Json),
    /// The first content for the user has passed.
    FirstContent,
    EventType(String),
    ResponseStatus(String),
    ErrorCode(String),
}

pub enum ProbeEventV {
    Usage(JsonV),
    FirstContent,
    EventType(Seq<char>),
    ResponseStatus(Seq<char>),
    ErrorCode(Seq<char>),
}

impl View for ProbeEvent {
    type V = ProbeEventV;

    open spec fn view(&self) -> ProbeEventV {
        match self {
            ProbeEvent::Usage(v) => ProbeEventV::Usage(v@),
            ProbeEvent::FirstContent => ProbeEventV::FirstContent,
            ProbeEvent::EventType(t) => ProbeEventV::EventType(t@),
            ProbeEvent::ResponseStatus(t) => ProbeEventV::ResponseStatus(t@),
            ProbeEvent::ErrorCode(t) => ProbeEventV::ErrorCode(t@),
        }
    }
}

pub open spec fn probe_events(events: Seq<ProbeEvent>) -> Seq<ProbeEventV> {
    Seq::new(events.len(), |i: int| events[i]@)
}

/// The views of a list of events that grows.
pub broadcast proof fn probe_events_push(events: Seq<ProbeEvent>, event: ProbeEvent)
    ensures
        #[trigger] probe_events(events.push(event)) == probe_events(events).push(event@),
{
    assert(probe_events(events.push(event)) =~= probe_events(events).push(event@));
}

/// A response as far as the log has seen it, and what it was told of it.
pub struct ProjectorV {
    pub depth: nat,
    pub in_string: bool,
    pub escaped: bool,
    pub string: Seq<u8>,
    pub string_overflow: bool,
    pub last_key: Option<ProjectedMetadataKey>,
    pub awaiting_usage: bool,
    pub awaiting_scalar: Option<ProjectedMetadataScalar>,
    pub capturing_scalar: Option<ProjectedMetadataScalar>,
    pub event_type_has_user_content: bool,
    pub event_delta_has_content: bool,
    pub usage: Option<CaptureV>,
    pub told: Seq<ProbeEventV>,
}

/// What a projector goes by: the limits of a usage member, and the types of the events that carry
/// content for the user.
pub struct ProjectorRules {
    pub limits: UsageLimits,
    pub content_types: Vec<String>,
}

/// Tells of the first content once an event is known to carry some.
pub open spec fn tell_content(s: ProjectorV) -> ProjectorV {
    if s.event_type_has_user_content && s.event_delta_has_content {
        ProjectorV { told: s.told.push(ProbeEventV::FirstContent), ..s }
    } else {
        s
    }
}

/// A scalar that the log reads has ended.
pub open spec fn captured(
    s: ProjectorV,
    scalar: ProjectedMetadataScalar,
    content_types: Seq<Seq<char>>,
) -> ProjectorV {
    let text = lossy_text(s.string);
    match scalar {
        ProjectedMetadataScalar::Delta => tell_content(
            ProjectorV {
                event_delta_has_content: s.string_overflow || s.string.len() > 0,
                ..s
            },
        ),
        ProjectedMetadataScalar::EventType => if s.string_overflow {
            s
        } else {
            let t = tell_content(
                ProjectorV {
                    event_type_has_user_content: content_types.contains(text),
                    ..s
                },
            );
            ProjectorV { told: t.told.push(ProbeEventV::EventType(text)), ..t }
        },
        ProjectedMetadataScalar::ResponseStatus => if s.string_overflow {
            s
        } else {
            ProjectorV { told: s.told.push(ProbeEventV::ResponseStatus(text)), ..s }
        },
        ProjectedMetadataScalar::ErrorCode => if s.string_overflow {
            s
        } else {
            ProjectorV { told: s.told.push(ProbeEventV::ErrorCode(text)), ..s }
        },
    }
}

/// A byte inside a string. At most 64 bytes of it are kept.
pub open spec fn projected_string_byte(
    s: ProjectorV,
    byte: u8,
    content_types: Seq<Seq<char>>,
) -> ProjectorV {
    if s.escaped {
        ProjectorV { escaped: false, ..s }
    } else if byte == 92 {
        ProjectorV { escaped: true, ..s }
    } else if byte == 34 {
        let closed = ProjectorV { in_string: false, capturing_scalar: None, ..s };
        match s.capturing_scalar {
            Some(scalar) => ProjectorV {
                last_key: None,
                ..captured(closed, scalar, content_types)
            },
            None => ProjectorV {
                last_key: if s.string_overflow {
                    None
                } else {
                    metadata_key(s.string)
                },
                ..closed
            },
        }
    } else if s.string.len() < 64 {
        ProjectorV { string: s.string.push(byte), ..s }
    } else {
        ProjectorV { string_overflow: true, ..s }
    }
}

/// The scalar that follows a key, where the log reads it at this depth.
pub open spec fn awaited(depth: nat, key: Option<ProjectedMetadataKey>) -> Option<
    ProjectedMetadataScalar,
> {
    if depth == 1 && key == Some(ProjectedMetadataKey::Type) {
        Some(ProjectedMetadataScalar::EventType)
    } else if depth == 1 && key == Some(ProjectedMetadataKey::Delta) {
        Some(ProjectedMetadataScalar::Delta)
    } else if (depth == 1 || depth == 2) && key == Some(ProjectedMetadataKey::Status) {
        Some(ProjectedMetadataScalar::ResponseStatus)
    } else if (depth == 2 || depth == 3) && key == Some(ProjectedMetadataKey::Code) {
        Some(ProjectedMetadataScalar::ErrorCode)
    } else {
        None
    }
}

/// Nothing is awaited any more.
pub open spec fn settled(s: ProjectorV) -> ProjectorV {
    ProjectorV { awaiting_usage: false, awaiting_scalar: None, last_key: None, ..s }
}

/// One level deeper; the counter stops at the largest number.
pub open spec fn deeper(depth: nat) -> nat {
    if depth < usize::MAX {
        depth + 1
    } else {
        depth
    }
}

/// A byte outside strings and outside a usage member.
pub open spec fn projected_structure_byte(s: ProjectorV, byte: u8) -> ProjectorV {
    if byte == 34 {
        ProjectorV {
            in_string: true,
            escaped: false,
            string: Seq::empty(),
            string_overflow: false,
            capturing_scalar: s.awaiting_scalar,
            awaiting_scalar: None,
            awaiting_usage: false,
            ..s
        }
    } else if byte == 58 {
        ProjectorV {
            last_key: None,
            awaiting_usage: s.depth <= 2 && s.last_key == Some(ProjectedMetadataKey::Usage),
            awaiting_scalar: awaited(s.depth, s.last_key),
            ..s
        }
    } else if byte == 123 && s.awaiting_usage {
        ProjectorV {
            awaiting_usage: false,
            awaiting_scalar: None,
            usage: Some(fresh_capture()),
            ..s
        }
    } else if byte == 123 {
        let top = if s.depth == 0 {
            ProjectorV {
                event_type_has_user_content: false,
                event_delta_has_content: false,
                ..s
            }
        } else {
            s
        };
        settled(ProjectorV { depth: deeper(s.depth), ..top })
    } else if byte == 91 {
        settled(ProjectorV { depth: deeper(s.depth), ..s })
    } else if byte == 125 || byte == 93 {
        settled(
            ProjectorV {
                depth: if s.depth > 0 {
                    (s.depth - 1) as nat
                } else {
                    0
                },
                ..s
            },
        )
    } else if is_space(byte) {
        s
    } else {
        settled(s)
    }
}

/// A response after one more byte. An error is the end of what the log learns.
pub open spec fn projected_byte(
    s: ProjectorV,
    byte: u8,
    limits: UsageLimits,
    content_types: Seq<Seq<char>>,
) -> Result<ProjectorV, UsageFault> {
    match s.usage {
        Some(capture) => match capture_byte(capture, byte, limits) {
            Err(e) => Err(e),
            Ok(next) => if member_ended(capture, next, byte) {
                Ok(
                    ProjectorV {
                        usage: None,
                        told: s.told.push(
                            ProbeEventV::Usage(
                                JsonV::obj().with("usage"@, usage_value(next)),
                            ),
                        ),
                        ..s
                    },
                )
            } else {
                Ok(ProjectorV { usage: Some(next), ..s })
            },
        },
        None => Ok(
            if s.in_string {
                projected_string_byte(s, byte, content_types)
            } else {
                projected_structure_byte(s, byte)
            },
        ),
    }
}

/// What a byte that does not fit leaves: all that was told stays told.
pub open spec fn projected_fault(s: ProjectorV, byte: u8) -> ProjectorV {
    match s.usage {
        Some(capture) => ProjectorV { usage: Some(capture_fault(capture, byte)), ..s },
        None => s,
    }
}

/// A response after the first bytes of a piece. With an error among them, the response after the
/// byte with the first one, and that error.
pub open spec fn projected(
    s: ProjectorV,
    bytes: Seq<u8>,
    n: int,
    limits: UsageLimits,
    content_types: Seq<Seq<char>>,
) -> (ProjectorV, Option<UsageFault>)
    decreases n,
{
    if n <= 0 {
        (s, None)
    } else {
        let before = projected(s, bytes, n - 1, limits, content_types);
        if before.1 is Some {
            before
        } else {
            match projected_byte(before.0, bytes[n - 1], limits, content_types) {
                Ok(t) => (t, None),
                Err(e) => (projected_fault(before.0, bytes[n - 1]), Some(e)),
            }
        }
    }
}

proof fn lemma_fault_stays(
    s: ProjectorV,
    bytes: Seq<u8>,
    n: int,
    m: int,
    limits: UsageLimits,
    content_types: Seq<Seq<char>>,
)
    requires
        0 <= n <= m,
        projected(s, bytes, n, limits, content_types).1 is Some,
    ensures
        projected(s, bytes, m, limits, content_types) == projected(
            s,
            bytes,
            n,
            limits,
            content_types,
        ),
    decreases m - n,
{
    if n < m {
        lemma_fault_stays(s, bytes, n, m - 1, limits, content_types);
    }
}

/// How a response was cut into pieces does not change what the log learns: not the result, not
/// the state, not what was told. The piece after one with an error is not looked at.
pub proof fn projecting_in_pieces(
    s: ProjectorV,
    a: Seq<u8>,
    b: Seq<u8>,
    n: int,
    limits: UsageLimits,
    content_types: Seq<Seq<char>>,
)
    requires
        0 <= n <= b.len(),
    ensures
        ({
            let first = projected(s, a, a.len() as int, limits, content_types);
            projected(s, a + b, a.len() + n, limits, content_types) == if first.1 is Some {
                first
            } else {
                projected(first.0, b, n, limits, content_types)
            }
        }),
    decreases n,
{
    if n > 0 {
        projecting_in_pieces(s, a, b, n - 1, limits, content_types);
        assert((a + b)[a.len() + n - 1] == b[n - 1]);
    } else {
        lemma_same_prefix(s, a, b, a.len() as int, limits, content_types);
    }
}

proof fn lemma_same_prefix(
    s: ProjectorV,
    a: Seq<u8>,
    b: Seq<u8>,
    n: int,
    limits: UsageLimits,
    content_types: Seq<Seq<char>>,
)
    requires
        0 <= n <= a.len(),
    ensures
        projected(s, a + b, n, limits, content_types) == projected(
            s,
            a,
            n,
            limits,
            content_types,
        ),
    decreases n,
{
    if n > 0 {
        lemma_same_prefix(s, a, b, n - 1, limits, content_types);
        assert((a + b)[n - 1] == a[n - 1]);
    }
}

/// Reads a response as it passes.
pub struct RequestLogMetadataProjector {
    pub depth: usize,
    pub in_string: bool,
    pub escaped: bool,
    pub string: Vec<u8>,
    pub string_overflow: bool,
    pub last_key: Option<ProjectedMetadataKey>,
    pub awaiting_usage: bool,
    pub awaiting_scalar: Option<ProjectedMetadataScalar>,
    pub capturing_scalar: Option<ProjectedMetadataScalar>,
    pub event_type_has_user_content: bool,
    pub event_delta_has_content: bool,
    pub usage: Option<UsageCapture>,
    /// What the log is to be told, in order.
    pub told: Vec<ProbeEvent>,
}

impl View for RequestLogMetadataProjector {
    type V = ProjectorV;

    open spec fn view(&self) -> ProjectorV {
        ProjectorV {
            depth: self.depth as nat,
            in_string: self.in_string,
            escaped: self.escaped,
            string: self.string@,
            string_overflow: self.string_overflow,
            last_key: self.last_key,
            awaiting_usage: self.awaiting_usage,
            awaiting_scalar: self.awaiting_scalar,
            capturing_scalar: self.capturing_scalar,
            event_type_has_user_content: self.event_type_has_user_content,
            event_delta_has_content: self.event_delta_has_content,
            usage: match self.usage {
                Some(c) => Some(c@),
                None => None,
            },
            told: probe_events(self.told@),
        }
    }
}

/// The state before the first byte.
pub open spec fn fresh_projector() -> ProjectorV {
    ProjectorV {
        depth: 0,
        in_string: false,
        escaped: false,
        string: Seq::empty(),
        string_overflow: false,
        last_key: None,
        awaiting_usage: false,
        awaiting_scalar: None,
        capturing_scalar: None,
        event_type_has_user_content: false,
        event_delta_has_content: false,
        usage: None,
        told: Seq::empty(),
    }
}

impl RequestLogMetadataProjector {
    /// A usage member that is being read is read within the rules' limits.
    pub open spec fn inv(&self, limits: UsageLimits) -> bool {
        self.usage matches Some(c) ==> c.inv() && c.limits == limits
    }

    pub fn new() -> (r: RequestLogMetadataProjector)
        ensures
            r@ == fresh_projector(),
            forall|limits: UsageLimits| r.inv(limits),
    {
        let r = RequestLogMetadataProjector {
            depth: 0,
            in_string: false,
            escaped: false,
            string: Vec::new(),
            string_overflow: false,
            last_key: None,
            awaiting_usage: false,
            awaiting_scalar: None,
            capturing_scalar: None,
            event_type_has_user_content: false,
            event_delta_has_content: false,
            usage: None,
            told: Vec::new(),
        };
        proof {
            assert(r@.string =~= Seq::<u8>::empty());
            assert(r@.told =~= Seq::<ProbeEventV>::empty());
        }
        r
    }

    fn tell_content(&mut self)
        ensures
            final(self)@ == tell_content(old(self)@),
            final(self).usage == old(self).usage,
    {
        if self.event_type_has_user_content && self.event_delta_has_content {
            proof {
                probe_events_push(self.told@, ProbeEvent::FirstContent);
            }
            self.told.push(ProbeEvent::FirstContent);
        }
    }

    fn capture_scalar(&mut self, scalar: ProjectedMetadataScalar, content_types: &Vec<String>)
        ensures
            final(self)@ == captured(old(self)@, scalar, texts(content_types@)),
            final(self).usage == old(self).usage,
    {
        match scalar {
            ProjectedMetadataScalar::Delta => {
                self.event_delta_has_content = self.string_overflow || self.string.len() > 0;
                self.tell_content();
            },
            ProjectedMetadataScalar::EventType => {
                if !self.string_overflow {
                    let text = text_lossy(self.string.as_slice());
                    self.event_type_has_user_content = list_has(content_types, text.as_str());
                    self.tell_content();
                    let event = ProbeEvent::EventType(text);
                    proof {
                        probe_events_push(self.told@, event);
                    }
                    self.told.push(event);
                }
            },
            ProjectedMetadataScalar::ResponseStatus => {
                if !self.string_overflow {
                    let event = ProbeEvent::ResponseStatus(text_lossy(self.string.as_slice()));
                    proof {
                        probe_events_push(self.told@, event);
                    }
                    self.told.push(event);
                }
            },
            ProjectedMetadataScalar::ErrorCode => {
                if !self.string_overflow {
                    let event = ProbeEvent::ErrorCode(text_lossy(self.string.as_slice()));
                    proof {
                        probe_events_push(self.told@, event);
                    }
                    self.told.push(event);
                }
            },
        }
    }

    fn string_byte(&mut self, byte: u8, content_types: &Vec<String>)
        ensures
            final(self)@ == projected_string_byte(old(self)@, byte, texts(content_types@)),
            final(self).usage == old(self).usage,
    {
        if self.escaped {
            self.escaped = false;
        } else if byte == 92 {
            self.escaped = true;
        } else if byte == 34 {
            self.in_string = false;
            let capturing = self.capturing_scalar;
            self.capturing_scalar = None;
            match capturing {
                Some(scalar) => {
                    self.capture_scalar(scalar, content_types);
                    self.last_key = None;
                },
                None => {
                    self.last_key = if self.string_overflow {
                        None
                    } else {
                        projected_metadata_key(&self.string)
                    };
                },
            }
        } else if self.string.len() < 64 {
            self.string.push(byte);
        } else {
            self.string_overflow = true;
        }
    }

    fn settle(&mut self)
        ensures
            final(self)@ == settled(old(self)@),
            final(self).usage == old(self).usage,
    {
        self.awaiting_usage = false;
        self.awaiting_scalar = None;
        self.last_key = None;
    }

    fn structure_byte(&mut self, byte: u8, limits: UsageLimits)
        requires
            old(self).usage is None,
        ensures
            final(self)@ == projected_structure_byte(old(self)@, byte),
            final(self).inv(limits),
    {
        if byte == 34 {
            self.in_string = true;
            self.escaped = false;
            self.string.clear();
            self.string_overflow = false;
            self.capturing_scalar = self.awaiting_scalar;
            self.awaiting_scalar = None;
            self.awaiting_usage = false;
            proof {
                assert(self.string@ =~= Seq::<u8>::empty());
            }
        } else if byte == 58 {
            let key = self.last_key;
            self.last_key = None;
            self.awaiting_usage = self.depth <= 2 && (match key {
                Some(ProjectedMetadataKey::Usage) => true,
                _ => false,
            });
            self.awaiting_scalar = match key {
                Some(ProjectedMetadataKey::Type) => if self.depth == 1 {
                    Some(ProjectedMetadataScalar::EventType)
                } else {
                    None
                },
                Some(ProjectedMetadataKey::Delta) => if self.depth == 1 {
                    Some(ProjectedMetadataScalar::Delta)
                } else {
                    None
                },
                Some(ProjectedMetadataKey::Status) => if self.depth == 1 || self.depth == 2 {
                    Some(ProjectedMetadataScalar::ResponseStatus)
                } else {
                    None
                },
                Some(ProjectedMetadataKey::Code) => if self.depth == 2 || self.depth == 3 {
                    Some(ProjectedMetadataScalar::ErrorCode)
                } else {
                    None
                },
                _ => None,
            };
        } else if byte == 123 && self.awaiting_usage {
            self.awaiting_usage = false;
            self.awaiting_scalar = None;
            self.usage = Some(UsageCapture::new(limits));
        } else if byte == 123 || byte == 91 {
            if byte == 123 && self.depth == 0 {
                self.event_type_has_user_content = false;
                self.event_delta_has_content = false;
            }
            if self.depth < usize::MAX {
                self.depth = self.depth + 1;
            }
            self.settle();
        } else if byte == 125 || byte == 93 {
            if self.depth > 0 {
                self.depth = self.depth - 1;
            }
            self.settle();
        } else if byte_is_space(byte) {
        } else {
            self.settle();
        }
    }

    fn observe_one(&mut self, byte: u8, rules: &ProjectorRules) -> (r: Result<(), UsageFault>)
        requires
            old(self).inv(rules.limits),
        ensures
            final(self).inv(rules.limits),
            match r {
                Ok(()) => projected_byte(
                    old(self)@,
                    byte,
                    rules.limits,
                    texts(rules.content_types@),
                ) == Ok::<ProjectorV, UsageFault>(final(self)@),
                Err(e) => projected_byte(
                    old(self)@,
                    byte,
                    rules.limits,
                    texts(rules.content_types@),
                ) == Err::<ProjectorV, UsageFault>(e) && final(self)@ == projected_fault(old(self)@, byte),
            },
    {
        let mut usage: Option<UsageCapture> = None;
        std::mem::swap(&mut usage, &mut self.usage);
        match usage {
            Some(mut capture) => {
                match capture.observe_byte(byte) {
                    Err(e) => {
                        self.usage = Some(capture);
                        Err(e)
                    },
                    Ok(true) => {
                        let event = ProbeEvent::Usage(
                            Json::obj().with("usage", capture.into_value()),
                        );
                        proof {
                            probe_events_push(self.told@, event);
                        }
                        self.told.push(event);
                        Ok(())
                    },
                    Ok(false) => {
                        self.usage = Some(capture);
                        Ok(())
                    },
                }
            },
            None => {
                if self.in_string {
                    self.string_byte(byte, &rules.content_types);
                } else {
                    self.structure_byte(byte, rules.limits);
                }
                Ok(())
            },
        }
    }

    /// Takes in a piece of a response, up to the first byte that does not fit.
    pub fn observe(&mut self, bytes: &[u8], rules: &ProjectorRules) -> (r: Result<(), UsageFault>)
        requires
            old(self).inv(rules.limits),
        ensures
            final(self).inv(rules.limits),
            projected(
                old(self)@,
                bytes@,
                bytes@.len() as int,
                rules.limits,
                texts(rules.content_types@),
            ) == (
                final(self)@,
                match r {
                    Ok(()) => None,
                    Err(e) => Some(e),
                },
            ),
    {
        let ghost start = self@;
        let mut i: usize = 0;
        while i < bytes.len()
            invariant
                i <= bytes.len(),
                start == old(self)@,
                self.inv(rules.limits),
                projected(
                    start,
                    bytes@,
                    i as int,
                    rules.limits,
                    texts(rules.content_types@),
                ) == (self@, None::<UsageFault>),
            decreases bytes.len() - i,
        {
            if let Err(e) = self.observe_one(bytes[i], rules) {
                proof {
                    lemma_fault_stays(
                        start,
                        bytes@,
                        i + 1,
                        bytes@.len() as int,
                        rules.limits,
                        texts(rules.content_types@),
                    );
                }
                return Err(e);
            }
            i = i + 1;
        }
        Ok(())
    }
}

/// At most 64 bytes of a string are kept, whatever the upstream sends.
pub proof fn projector_keeps_little(
    s: ProjectorV,
    byte: u8,
    limits: UsageLimits,
    content_types: Seq<Seq<char>>,
)
    requires
        s.string.len() <= 64,
        s.usage matches Some(c) ==> capture_bounded(c, limits),
        projected_byte(s, byte, limits, content_types) is Ok,
    ensures
        projected_byte(s, byte, limits, content_types)->Ok_0.string.len() <= 64,
        projected_byte(s, byte, limits, content_types)->Ok_0.usage matches Some(c)
            ==> capture_bounded(c, limits),
{
    if let Some(c) = s.usage {
        if capture_byte(c, byte, limits) is Ok {
            capture_stays_bounded(c, byte, limits);
        }
    }
}

/// The bytes between quotation marks.
pub open spec fn quoted(text: Seq<u8>) -> Seq<u8> {
    seq![34u8] + text + seq![34u8]
}

/// The bytes stand for themselves within quotation marks, and are few enough to be kept.
pub open spec fn is_short_plain(text: Seq<u8>) -> bool {
    text.len() <= 64 && forall|i: int|
        0 <= i < text.len() ==> #[trigger] text[i] != 34 && text[i] != 92
}

spec fn opened(s: ProjectorV, text: Seq<u8>) -> ProjectorV {
    ProjectorV {
        in_string: true,
        escaped: false,
        string: text,
        string_overflow: false,
        capturing_scalar: s.awaiting_scalar,
        awaiting_scalar: None,
        awaiting_usage: false,
        ..s
    }
}

proof fn lemma_opened(
    s: ProjectorV,
    text: Seq<u8>,
    k: int,
    limits: UsageLimits,
    content_types: Seq<Seq<char>>,
)
    requires
        s.usage is None,
        !s.in_string,
        is_short_plain(text),
        0 <= k <= text.len(),
    ensures
        projected(s, quoted(text), k + 1, limits, content_types) == (
            opened(s, text.subrange(0, k)),
            None::<UsageFault>,
        ),
    decreases k,
{
    let bytes = quoted(text);
    if k == 0 {
        assert(bytes[0] == 34);
        assert(projected(s, bytes, 0, limits, content_types) == (s, None::<UsageFault>));
        assert(text.subrange(0, 0) =~= Seq::<u8>::empty());
    } else {
        lemma_opened(s, text, k - 1, limits, content_types);
        assert(bytes[k] == text[k - 1]);
        assert(text.subrange(0, k - 1).push(text[k - 1]) =~= text.subrange(0, k));
    }
}

proof fn lemma_quoted(
    s: ProjectorV,
    text: Seq<u8>,
    limits: UsageLimits,
    content_types: Seq<Seq<char>>,
)
    requires
        s.usage is None,
        !s.in_string,
        is_short_plain(text),
    ensures
        projected(s, quoted(text), quoted(text).len() as int, limits, content_types) == (
            projected_string_byte(opened(s, text), 34, content_types),
            None::<UsageFault>,
        ),
{
    let n = text.len() as int;
    let bytes = quoted(text);
    lemma_opened(s, text, n, limits, content_types);
    assert(text.subrange(0, n) =~= text);
    assert(bytes[n + 1] == 34);
    assert(bytes.len() == n + 2);
}

/// A member with a short text is read off a response where the log looks for it: the status and the
/// type of an event, and the code of an error, are told as they stand; the first content is told once
/// both its type and that there is some are known; and of any other member nothing is told, whatever
/// its text says.
pub proof fn a_member_is_told_as_it_stands(
    s: ProjectorV,
    key: Seq<u8>,
    value: Seq<u8>,
    limits: UsageLimits,
    content_types: Seq<Seq<char>>,
)
    requires
        s.usage is None,
        !s.in_string,
        s.awaiting_scalar is None,
        is_short_plain(key),
        is_short_plain(value),
    ensures
        ({
            let bytes = quoted(key) + seq![58u8] + quoted(value);
            let (after, fault) = projected(s, bytes, bytes.len() as int, limits, content_types);
            let text = lossy_text(value);
            let is_type = key == seq![116u8, 121u8, 112u8, 101u8] && s.depth == 1;
            let is_delta = key == seq![100u8, 101u8, 108u8, 116u8, 97u8] && s.depth == 1;
            let is_status = key == seq![115u8, 116u8, 97u8, 116u8, 117u8, 115u8] && (s.depth == 1
                || s.depth == 2);
            let is_code = key == seq![99u8, 111u8, 100u8, 101u8] && (s.depth == 2 || s.depth == 3);
            &&& fault is None
            &&& after.depth == s.depth && !after.in_string && after.usage is None
            &&& is_status ==> after.told == s.told.push(ProbeEventV::ResponseStatus(text))
            &&& is_code ==> after.told == s.told.push(ProbeEventV::ErrorCode(text))
            &&& is_type && content_types.contains(text) && s.event_delta_has_content ==> after.told
                == s.told.push(ProbeEventV::FirstContent).push(ProbeEventV::EventType(text))
            &&& is_type && !(content_types.contains(text) && s.event_delta_has_content)
                ==> after.told == s.told.push(ProbeEventV::EventType(text))
            &&& is_delta && value.len() > 0 && s.event_type_has_user_content ==> after.told
                == s.told.push(ProbeEventV::FirstContent)
            &&& is_delta && !(value.len() > 0 && s.event_type_has_user_content) ==> after.told
                == s.told
            &&& !is_type && !is_delta && !is_status && !is_code ==> after.told == s.told
        }),
{
    let first = quoted(key);
    let mark = seq![58u8];
    let second = quoted(value);
    lemma_quoted(s, key, limits, content_types);
    let named = projected_string_byte(opened(s, key), 34, content_types);
    let start = first + mark;
    projecting_in_pieces(s, first, mark, 1, limits, content_types);
    assert(projected(named, mark, 0, limits, content_types) == (named, None::<UsageFault>));
    assert(mark[0] == 58);
    let waiting = projected_structure_byte(named, 58);
    assert(projected(named, mark, 1, limits, content_types) == (waiting, None::<UsageFault>));
    assert(start.len() == first.len() + 1);
    projecting_in_pieces(s, start, second, second.len() as int, limits, content_types);
    lemma_quoted(waiting, value, limits, content_types);
    lemma_keys_differ();
}

proof fn lemma_keys_differ()
    ensures
        metadata_key(seq![116u8, 121u8, 112u8, 101u8]) == Some(ProjectedMetadataKey::Type),
        metadata_key(seq![100u8, 101u8, 108u8, 116u8, 97u8]) == Some(ProjectedMetadataKey::Delta),
        metadata_key(seq![115u8, 116u8, 97u8, 116u8, 117u8, 115u8]) == Some(
            ProjectedMetadataKey::Status,
        ),
        metadata_key(seq![99u8, 111u8, 100u8, 101u8]) == Some(ProjectedMetadataKey::Code),
{
    assert(seq![117u8, 115u8, 97u8, 103u8, 101u8][0] == 117);
    assert(seq![116u8, 121u8, 112u8, 101u8][0] == 116);
    assert(seq![100u8, 101u8, 108u8, 116u8, 97u8][0] == 100);
    assert(seq![115u8, 116u8, 97u8, 116u8, 117u8, 115u8][0] == 115);
    assert(seq![99u8, 111u8, 100u8, 101u8][0] == 99);
}

} // verus!
