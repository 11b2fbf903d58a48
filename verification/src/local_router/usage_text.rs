//! Usage members as texts, and what reading one byte by byte comes to.
use crate::json::{JsonV, json_parsed};
use crate::local_router::request_log_tap::{
    CaptureV, ProjectedUsageField, ProjectedUsageKey, UsageContainer, UsageFault, UsageJsonState,
    UsageLimits, UsageObjectContext, capture_byte, ends_scalar, field_index, fresh_capture,
    is_escape, is_hex, is_space, keep_value, key_end, mark_byte, member_ended, open_byte,
    quote_byte, quoted, scalar_end, starts_scalar, structure_byte, usage_key, value_start,
};
use vstd::prelude::*;

verus! {

/// A value with the white space around it.
pub struct ValueText {
    pub before: Seq<u8>,
    pub node: NodeText,
    pub after: Seq<u8>,
}

/// A value of a document, by the bytes of its text.
pub enum NodeText {
    /// A number, `true`, `false` or `null`.
    Scalar(Seq<u8>),
    /// What stands between the quotes of a string.
    Text(Seq<u8>),
    /// The members of an object, or the white space in an empty one.
    Object(Seq<MemberText>, Seq<u8>),
    /// The items of an array, or the white space in an empty one.
    List(Seq<ValueText>, Seq<u8>),
}

/// A member of an object: white space, the key between its quotes, white space, and the value.
pub struct MemberText {
    pub lead: Seq<u8>,
    pub key: Seq<u8>,
    pub gap: Seq<u8>,
    pub value: ValueText,
}

/// The bytes of a value.
pub open spec fn value_bytes(value: ValueText) -> Seq<u8>
    decreases value, 0nat,
{
    value.before + node_bytes(value.node) + value.after
}

/// The bytes of a value without the white space around it.
pub open spec fn node_bytes(node: NodeText) -> Seq<u8>
    decreases node, 0nat,
{
    match node {
        NodeText::Scalar(bytes) => bytes,
        NodeText::Text(bytes) => seq![34u8] + bytes + seq![34u8],
        NodeText::Object(members, inner) => seq![123u8] + (if members.len() == 0 {
            inner
        } else {
            members_bytes(members, members.len())
        }) + seq![125u8],
        NodeText::List(items, inner) => seq![91u8] + (if items.len() == 0 {
            inner
        } else {
            items_bytes(items, items.len())
        }) + seq![93u8],
    }
}

/// The bytes of the first members of an object.
pub open spec fn members_bytes(members: Seq<MemberText>, n: nat) -> Seq<u8>
    decreases members, n,
{
    if n == 0 || n > members.len() {
        Seq::empty()
    } else {
        members_bytes(members, (n - 1) as nat) + comma_before(n) + member_bytes(members[n - 1])
    }
}

/// The bytes of a member.
pub open spec fn member_bytes(member: MemberText) -> Seq<u8>
    decreases member, 0nat,
{
    key_bytes(member) + value_bytes(member.value)
}

/// The bytes of a member before its value.
pub open spec fn key_bytes(member: MemberText) -> Seq<u8> {
    member.lead + (seq![34u8] + member.key + seq![34u8]) + member.gap + seq![58u8]
}

/// The bytes of the first items of an array.
pub open spec fn items_bytes(items: Seq<ValueText>, n: nat) -> Seq<u8>
    decreases items, n,
{
    if n == 0 || n > items.len() {
        Seq::empty()
    } else {
        items_bytes(items, (n - 1) as nat) + comma_before(n) + value_bytes(items[n - 1])
    }
}

/// A comma stands before every member and every item but the first.
pub open spec fn comma_before(n: nat) -> Seq<u8> {
    if n > 1 {
        seq![44u8]
    } else {
        Seq::empty()
    }
}

/// Bytes that are all white space.
pub open spec fn all_spaces(bytes: Seq<u8>) -> bool {
    forall|i: int| 0 <= i < bytes.len() ==> is_space(#[trigger] bytes[i])
}

/// How the first bytes of a string leave it: behind a backslash or not, and so many hexadecimal
/// digits to come.
pub open spec fn string_scan(bytes: Seq<u8>, n: int) -> Option<(bool, u8)>
    decreases n,
{
    if n <= 0 {
        Some((false, 0u8))
    } else {
        let byte = bytes[n - 1];
        match string_scan(bytes, n - 1) {
            None => None,
            Some((escaped, digits)) => if digits > 0 {
                if is_hex(byte) {
                    Some((escaped, (digits - 1) as u8))
                } else {
                    None
                }
            } else if escaped {
                if is_escape(byte) {
                    Some(
                        (
                            false,
                            if byte == 117 {
                                4u8
                            } else {
                                0u8
                            },
                        ),
                    )
                } else {
                    None
                }
            } else if byte == 92 {
                Some((true, 0u8))
            } else if byte == 34 || byte < 32 {
                None
            } else {
                Some((false, 0u8))
            },
        }
    }
}

/// What may stand between the quotes of a string.
pub open spec fn is_string_body(bytes: Seq<u8>) -> bool {
    string_scan(bytes, bytes.len() as int) == Some((false, 0u8))
}

/// A scalar that is kept whole.
pub open spec fn scalar_fits(bytes: Seq<u8>, limits: UsageLimits) -> bool {
    bytes.len() <= scalar_room(limits)
}

pub open spec fn scalar_room(limits: UsageLimits) -> nat {
    if limits.scalar_bytes == 0 {
        1
    } else {
        limits.scalar_bytes as nat
    }
}

/// What a key of an object stands for; one that is too long stands for nothing.
pub open spec fn key_meaning(
    key: Seq<u8>,
    context: UsageObjectContext,
    limits: UsageLimits,
) -> ProjectedUsageKey {
    if key.len() > limits.key_bytes {
        ProjectedUsageKey::Other
    } else {
        match json_parsed(seq![34u8] + key + seq![34u8]) {
            Ok(JsonV::Str(name)) => usage_key(context, name),
            _ => ProjectedUsageKey::Other,
        }
    }
}

/// Which object a value under a key is.
pub open spec fn context_under(key: ProjectedUsageKey) -> UsageObjectContext {
    match key {
        ProjectedUsageKey::Object(context) => context,
        _ => UsageObjectContext::Other,
    }
}

/// The value is the text of a document: its scalars and keys are read by `serde_json`, it is nested
/// no deeper than the limit, and no number that counts is longer than the limit. `depth` objects and
/// arrays are open around it.
pub open spec fn value_is_read(
    value: ValueText,
    key: ProjectedUsageKey,
    depth: nat,
    limits: UsageLimits,
) -> bool
    decreases value, 0nat,
{
    all_spaces(value.before) && all_spaces(value.after) && node_is_read(
        value.node,
        key,
        depth,
        limits,
    )
}

pub open spec fn node_is_read(
    node: NodeText,
    key: ProjectedUsageKey,
    depth: nat,
    limits: UsageLimits,
) -> bool
    decreases node, 0nat,
{
    match node {
        NodeText::Scalar(bytes) => {
            &&& bytes.len() > 0
            &&& starts_scalar(bytes[0])
            &&& forall|i: int| 0 < i < bytes.len() ==> !ends_scalar(#[trigger] bytes[i])
            &&& if scalar_fits(bytes, limits) {
                json_parsed(bytes) is Ok
            } else {
                !(key is Field)
            }
        },
        NodeText::Text(bytes) => is_string_body(bytes),
        NodeText::Object(members, inner) => {
            &&& depth < limits.nesting_depth
            &&& all_spaces(inner)
            &&& forall|i: int|
                0 <= i < members.len() ==> member_is_read(
                    #[trigger] members[i],
                    context_under(key),
                    depth + 1,
                    limits,
                )
        },
        NodeText::List(items, inner) => {
            &&& depth < limits.nesting_depth
            &&& all_spaces(inner)
            &&& forall|i: int|
                0 <= i < items.len() ==> value_is_read(
                    #[trigger] items[i],
                    ProjectedUsageKey::Other,
                    depth + 1,
                    limits,
                )
        },
    }
}

pub open spec fn member_is_read(
    member: MemberText,
    context: UsageObjectContext,
    depth: nat,
    limits: UsageLimits,
) -> bool
    decreases member, 0nat,
{
    &&& all_spaces(member.lead)
    &&& all_spaces(member.gap)
    &&& is_string_body(member.key)
    &&& member.key.len() <= limits.key_bytes ==> (json_parsed(
        seq![34u8] + member.key + seq![34u8],
    ) matches Ok(JsonV::Str(_)))
    &&& value_is_read(member.value, key_meaning(member.key, context, limits), depth, limits)
}

/// A number that is offered for a field, with the number of its spelling.
pub struct Offer {
    pub field: ProjectedUsageField,
    pub priority: u8,
    pub number: u64,
}

/// The numbers that a value offers, in the order of the text.
pub open spec fn value_offers(
    value: ValueText,
    key: ProjectedUsageKey,
    limits: UsageLimits,
) -> Seq<Offer>
    decreases value, 0nat,
{
    node_offers(value.node, key, limits)
}

pub open spec fn node_offers(node: NodeText, key: ProjectedUsageKey, limits: UsageLimits) -> Seq<
    Offer,
>
    decreases node, 0nat,
{
    match node {
        NodeText::Scalar(bytes) => scalar_offers(bytes, key),
        NodeText::Text(_) => Seq::empty(),
        NodeText::Object(members, _) => members_offers(
            members,
            members.len(),
            context_under(key),
            limits,
        ),
        NodeText::List(items, _) => items_offers(items, items.len(), limits),
    }
}

/// A scalar offers a number where it stands under a key that counts and is one.
pub open spec fn scalar_offers(bytes: Seq<u8>, key: ProjectedUsageKey) -> Seq<Offer> {
    match (key, json_parsed(bytes)) {
        (ProjectedUsageKey::Field(field, priority), Ok(JsonV::Unsigned(number))) => seq![
            Offer { field, priority, number },
        ],
        _ => Seq::empty(),
    }
}

pub open spec fn members_offers(
    members: Seq<MemberText>,
    n: nat,
    context: UsageObjectContext,
    limits: UsageLimits,
) -> Seq<Offer>
    decreases members, n,
{
    if n == 0 || n > members.len() {
        Seq::empty()
    } else {
        members_offers(members, (n - 1) as nat, context, limits) + member_offers(
            members[n - 1],
            context,
            limits,
        )
    }
}

pub open spec fn member_offers(
    member: MemberText,
    context: UsageObjectContext,
    limits: UsageLimits,
) -> Seq<Offer>
    decreases member, 0nat,
{
    value_offers(member.value, key_meaning(member.key, context, limits), limits)
}

pub open spec fn items_offers(items: Seq<ValueText>, n: nat, limits: UsageLimits) -> Seq<Offer>
    decreases items, n,
{
    if n == 0 || n > items.len() {
        Seq::empty()
    } else {
        items_offers(items, (n - 1) as nat, limits) + value_offers(
            items[n - 1],
            ProjectedUsageKey::Other,
            limits,
        )
    }
}

/// The numbers that are kept after some were offered one after the other.
pub open spec fn kept_of(values: Seq<Option<(u8, u64)>>, offers: Seq<Offer>) -> Seq<
    Option<(u8, u64)>,
>
    decreases offers.len(),
{
    if offers.len() == 0 {
        values
    } else {
        let last = offers.last();
        keep_value(kept_of(values, offers.drop_last()), last.field, last.priority, last.number)
    }
}

/// A usage member after some bytes.
pub open spec fn capture_all(s: CaptureV, bytes: Seq<u8>, limits: UsageLimits) -> Result<
    CaptureV,
    UsageFault,
>
    decreases bytes.len(),
{
    if bytes.len() == 0 {
        Ok(s)
    } else {
        match capture_all(s, bytes.drop_last(), limits) {
            Err(e) => Err(e),
            Ok(t) => capture_byte(t, bytes.last(), limits),
        }
    }
}

proof fn lemma_all_of_two(s: CaptureV, a: Seq<u8>, b: Seq<u8>, limits: UsageLimits)
    ensures
        capture_all(s, a + b, limits) == match capture_all(s, a, limits) {
            Err(e) => Err::<CaptureV, UsageFault>(e),
            Ok(t) => capture_all(t, b, limits),
        },
    decreases b.len(),
{
    if b.len() == 0 {
        assert(a + b =~= a);
    } else {
        lemma_all_of_two(s, a, b.drop_last(), limits);
        assert((a + b).drop_last() =~= a + b.drop_last());
        assert((a + b).last() == b.last());
    }
}

proof fn lemma_all_of_one(s: CaptureV, byte: u8, limits: UsageLimits)
    ensures
        capture_all(s, seq![byte], limits) == capture_byte(s, byte, limits),
{
    assert(seq![byte].drop_last() =~= Seq::<u8>::empty());
    assert(capture_all(s, seq![byte].drop_last(), limits) == Ok::<CaptureV, UsageFault>(s));
}

proof fn lemma_kept_of_two(values: Seq<Option<(u8, u64)>>, a: Seq<Offer>, b: Seq<Offer>)
    ensures
        kept_of(values, a + b) == kept_of(kept_of(values, a), b),
    decreases b.len(),
{
    if b.len() == 0 {
        assert(a + b =~= a);
    } else {
        lemma_kept_of_two(values, a, b.drop_last());
        assert((a + b).drop_last() =~= a + b.drop_last());
        assert((a + b).last() == b.last());
    }
}

/// Nothing is half read: no string and no scalar.
pub open spec fn at_rest(
    s: CaptureV,
    containers: Seq<UsageContainer>,
    values: Seq<Option<(u8, u64)>>,
) -> bool {
    &&& !s.in_string
    &&& s.scalar.len() == 0
    &&& !s.scalar_overflow
    &&& s.containers == containers
    &&& s.values == values
}

/// A scalar that has not been ended yet, if there is one, ended.
pub open spec fn rested(s: CaptureV) -> CaptureV {
    if s.scalar.len() > 0 || s.scalar_overflow {
        scalar_end(s)->Ok_0
    } else {
        s
    }
}

/// A value has been read, but for the byte that ends a scalar.
pub open spec fn value_done(
    s: CaptureV,
    containers: Seq<UsageContainer>,
    values: Seq<Option<(u8, u64)>>,
) -> bool {
    &&& !s.in_string
    &&& s.scalar.len() > 0 || s.scalar_overflow ==> scalar_end(s) is Ok
    &&& at_rest(rested(s), containers, values)
}

proof fn lemma_next_byte(
    s: CaptureV,
    byte: u8,
    containers: Seq<UsageContainer>,
    values: Seq<Option<(u8, u64)>>,
    limits: UsageLimits,
)
    requires
        value_done(s, containers, values),
        ends_scalar(byte) || at_rest(s, containers, values),
    ensures
        capture_byte(s, byte, limits) == structure_byte(rested(s), byte, limits),
{
}

proof fn lemma_spaces(
    s: CaptureV,
    bytes: Seq<u8>,
    containers: Seq<UsageContainer>,
    values: Seq<Option<(u8, u64)>>,
    limits: UsageLimits,
)
    requires
        value_done(s, containers, values),
        all_spaces(bytes),
    ensures
        capture_all(s, bytes, limits) matches Ok(t) && value_done(t, containers, values) && (
        at_rest(s, containers, values) ==> at_rest(t, containers, values)),
    decreases bytes.len(),
{
    if bytes.len() > 0 {
        let front = bytes.drop_last();
        assert forall|i: int| 0 <= i < front.len() implies is_space(#[trigger] front[i]) by {
            assert(is_space(bytes[i]));
        }
        lemma_spaces(s, front, containers, values, limits);
        assert(is_space(bytes[bytes.len() - 1]));
        let t = capture_all(s, front, limits)->Ok_0;
        lemma_next_byte(t, bytes.last(), containers, values, limits);
    }
}

/// A string or a key after its first bytes.
spec fn inside_string(s: CaptureV, bytes: Seq<u8>, n: int, limits: UsageLimits) -> CaptureV {
    let scan = string_scan(bytes, n)->0;
    let room = limits.key_bytes as int;
    CaptureV {
        escaped: scan.0,
        unicode_digits: scan.1,
        string: if !s.string_is_key {
            Seq::empty()
        } else if n <= room {
            bytes.subrange(0, n)
        } else {
            bytes.subrange(0, room)
        },
        string_overflow: s.string_is_key && n > room,
        ..s
    }
}

proof fn lemma_scan_goes_on(bytes: Seq<u8>, n: int, m: int)
    requires
        0 <= n <= m,
        string_scan(bytes, m) is Some,
    ensures
        string_scan(bytes, n) is Some,
    decreases m - n,
{
    if n < m {
        lemma_scan_goes_on(bytes, n, m - 1);
    }
}

proof fn lemma_scan_digits(bytes: Seq<u8>, n: int)
    ensures
        string_scan(bytes, n) matches Some((escaped, digits)) ==> digits <= 4 && !(escaped
            && digits > 0),
    decreases n,
{
    if n > 0 {
        lemma_scan_digits(bytes, n - 1);
    }
}

proof fn lemma_string(s: CaptureV, bytes: Seq<u8>, n: int, limits: UsageLimits)
    requires
        s.in_string,
        !s.escaped,
        s.unicode_digits == 0,
        s.string.len() == 0,
        !s.string_overflow,
        0 <= n <= bytes.len(),
        string_scan(bytes, n) is Some,
    ensures
        capture_all(s, bytes.subrange(0, n), limits) == Ok::<CaptureV, UsageFault>(
            inside_string(s, bytes, n, limits),
        ),
    decreases n,
{
    if n > 0 {
        lemma_scan_goes_on(bytes, n - 1, n);
        lemma_scan_digits(bytes, n - 1);
        lemma_string(s, bytes, n - 1, limits);
        let part = bytes.subrange(0, n);
        assert(part.drop_last() =~= bytes.subrange(0, n - 1));
        assert(part.last() == bytes[n - 1]);
        let before = inside_string(s, bytes, n - 1, limits);
        let after = inside_string(s, bytes, n, limits);
        let room = limits.key_bytes as int;
        if s.string_is_key && n <= room {
            assert(bytes.subrange(0, n - 1).push(bytes[n - 1]) =~= bytes.subrange(0, n));
        } else if s.string_is_key && n == room + 1 {
            assert(bytes.subrange(0, n - 1) =~= bytes.subrange(0, room));
        }
        assert(capture_byte(before, bytes[n - 1], limits) == Ok::<CaptureV, UsageFault>(after));
    } else {
        assert(bytes.subrange(0, 0) =~= Seq::<u8>::empty());
        let start = inside_string(s, bytes, 0, limits);
        assert(start.string =~= s.string);
        assert(start =~= s);
    }
}

/// What `"`, bytes and `"` do to a state in which a string may start.
proof fn lemma_quoted(s: CaptureV, opened: CaptureV, bytes: Seq<u8>, limits: UsageLimits)
    requires
        !s.in_string,
        s.scalar.len() == 0,
        !s.scalar_overflow,
        quote_byte(s) == Ok::<CaptureV, UsageFault>(opened),
        is_string_body(bytes),
    ensures
        ({
            let closed = CaptureV {
                in_string: false,
                ..inside_string(opened, bytes, bytes.len() as int, limits)
            };
            capture_all(s, seq![34u8] + bytes + seq![34u8], limits) == if opened.string_is_key {
                key_end(closed)
            } else {
                Ok(closed)
            }
        }),
{
    let n = bytes.len() as int;
    lemma_all_of_one(s, 34u8, limits);
    assert(capture_byte(s, 34u8, limits) == Ok::<CaptureV, UsageFault>(opened));
    lemma_all_of_two(s, seq![34u8], bytes, limits);
    lemma_string(opened, bytes, n, limits);
    assert(bytes.subrange(0, n) =~= bytes);
    let inside = inside_string(opened, bytes, n, limits);
    lemma_all_of_two(s, seq![34u8] + bytes, seq![34u8], limits);
    lemma_all_of_one(inside, 34u8, limits);
}

/// A scalar after its first bytes.
spec fn inside_scalar(
    t: CaptureV,
    key: ProjectedUsageKey,
    bytes: Seq<u8>,
    n: int,
    limits: UsageLimits,
) -> CaptureV {
    let room = scalar_room(limits) as int;
    CaptureV {
        scalar: if n <= room {
            bytes.subrange(0, n)
        } else {
            bytes.subrange(0, room)
        },
        scalar_overflow: n > room,
        scalar_field: match key {
            ProjectedUsageKey::Field(field, priority) => Some((field, priority)),
            _ => None,
        },
        ..t
    }
}

proof fn lemma_scalar(
    s: CaptureV,
    t: CaptureV,
    key: ProjectedUsageKey,
    bytes: Seq<u8>,
    n: int,
    limits: UsageLimits,
)
    requires
        !s.in_string,
        s.scalar.len() == 0,
        !s.scalar_overflow,
        value_start(s) == Ok::<(CaptureV, ProjectedUsageKey), UsageFault>((t, key)),
        1 <= n <= bytes.len(),
        starts_scalar(bytes[0]),
        forall|i: int| 0 < i < bytes.len() ==> !ends_scalar(#[trigger] bytes[i]),
    ensures
        capture_all(s, bytes.subrange(0, n), limits) == Ok::<CaptureV, UsageFault>(
            inside_scalar(t, key, bytes, n, limits),
        ),
    decreases n,
{
    let part = bytes.subrange(0, n);
    assert(part.drop_last() =~= bytes.subrange(0, n - 1));
    assert(part.last() == bytes[n - 1]);
    if n == 1 {
        assert(part =~= seq![bytes[0]]);
        lemma_all_of_one(s, bytes[0], limits);
    } else {
        lemma_scalar(s, t, key, bytes, n - 1, limits);
        let room = scalar_room(limits) as int;
        let before = inside_scalar(t, key, bytes, n - 1, limits);
        assert(!ends_scalar(bytes[n - 1]));
        if n <= room {
            assert(bytes.subrange(0, n - 1).push(bytes[n - 1]) =~= bytes.subrange(0, n));
        } else if n == room + 1 {
            assert(bytes.subrange(0, n - 1) =~= bytes.subrange(0, room));
        }
        assert(capture_byte(before, bytes[n - 1], limits) == Ok::<CaptureV, UsageFault>(
            inside_scalar(t, key, bytes, n, limits),
        ));
    }
}

/// The containers once a value has started in the innermost.
pub open spec fn started(containers: Seq<UsageContainer>) -> Seq<UsageContainer> {
    let c = containers.last();
    containers.update(
        containers.len() - 1,
        if c.state == UsageJsonState::ObjectValue {
            UsageContainer {
                state: UsageJsonState::ObjectCommaOrEnd,
                key: ProjectedUsageKey::Other,
                ..c
            }
        } else {
            UsageContainer { state: UsageJsonState::ArrayCommaOrEnd, ..c }
        },
    )
}

/// A value under this key may start.
pub open spec fn awaits_value(containers: Seq<UsageContainer>, key: ProjectedUsageKey) -> bool {
    containers.len() > 0 && if containers.last().state == UsageJsonState::ObjectValue {
        key == containers.last().key
    } else {
        key == ProjectedUsageKey::Other && (containers.last().state
            == UsageJsonState::ArrayValueOrEnd || containers.last().state
            == UsageJsonState::ArrayValue)
    }
}

proof fn lemma_value_starts(s: CaptureV, key: ProjectedUsageKey)
    requires
        awaits_value(s.containers, key),
    ensures
        value_start(s) == Ok::<(CaptureV, ProjectedUsageKey), UsageFault>(
            (CaptureV { containers: started(s.containers), ..s }, key),
        ),
{
}

proof fn lemma_scalar_node(
    s: CaptureV,
    bytes: Seq<u8>,
    key: ProjectedUsageKey,
    containers: Seq<UsageContainer>,
    values: Seq<Option<(u8, u64)>>,
    limits: UsageLimits,
)
    requires
        at_rest(s, containers, values),
        awaits_value(containers, key),
        node_is_read(NodeText::Scalar(bytes), key, containers.len(), limits),
    ensures
        capture_all(s, bytes, limits) matches Ok(x) && value_done(
            x,
            started(containers),
            kept_of(values, scalar_offers(bytes, key)),
        ),
{
    lemma_value_starts(s, key);
    let t = CaptureV { containers: started(s.containers), ..s };
    let n = bytes.len() as int;
    lemma_scalar(s, t, key, bytes, n, limits);
    assert(bytes.subrange(0, n) =~= bytes);
    let x = inside_scalar(t, key, bytes, n, limits);
    let offers = scalar_offers(bytes, key);
    if scalar_fits(bytes, limits) {
        assert(x.scalar == bytes);
    }
    if offers.len() > 0 {
        assert(offers.drop_last() =~= Seq::<Offer>::empty());
        assert(kept_of(values, offers.drop_last()) == values);
    }
}

proof fn lemma_text_node(
    s: CaptureV,
    bytes: Seq<u8>,
    key: ProjectedUsageKey,
    containers: Seq<UsageContainer>,
    values: Seq<Option<(u8, u64)>>,
    limits: UsageLimits,
)
    requires
        at_rest(s, containers, values),
        awaits_value(containers, key),
        is_string_body(bytes),
    ensures
        capture_all(s, seq![34u8] + bytes + seq![34u8], limits) matches Ok(x) && value_done(
            x,
            started(containers),
            values,
        ),
{
    lemma_value_starts(s, key);
    let opened = quote_byte(s)->Ok_0;
    lemma_quoted(s, opened, bytes, limits);
}

/// An open object or array.
pub open spec fn open_container(
    context: Option<UsageObjectContext>,
    state: UsageJsonState,
) -> UsageContainer {
    UsageContainer { context, state, key: ProjectedUsageKey::Other }
}

/// How far the members of an object have come.
pub open spec fn object_state(n: nat) -> UsageJsonState {
    if n == 0 {
        UsageJsonState::ObjectKeyOrEnd
    } else {
        UsageJsonState::ObjectCommaOrEnd
    }
}

/// How far the items of an array have come.
pub open spec fn list_state(n: nat) -> UsageJsonState {
    if n == 0 {
        UsageJsonState::ArrayValueOrEnd
    } else {
        UsageJsonState::ArrayCommaOrEnd
    }
}

/// A member up to its value: from an object that expects a key to one that expects the value under
/// it.
proof fn lemma_key(
    s: CaptureV,
    member: MemberText,
    context: UsageObjectContext,
    outer: Seq<UsageContainer>,
    state: UsageJsonState,
    values: Seq<Option<(u8, u64)>>,
    limits: UsageLimits,
)
    requires
        at_rest(s, outer.push(open_container(Some(context), state)), values),
        state == UsageJsonState::ObjectKeyOrEnd || state == UsageJsonState::ObjectKey,
        member_is_read(member, context, outer.len() + 1, limits),
    ensures
        capture_all(s, key_bytes(member), limits) matches Ok(x) && at_rest(
            x,
            outer.push(
                UsageContainer {
                    context: Some(context),
                    state: UsageJsonState::ObjectValue,
                    key: key_meaning(member.key, context, limits),
                },
            ),
            values,
        ),
{
    let quoted = seq![34u8] + member.key + seq![34u8];
    let first = outer.push(open_container(Some(context), state));
    lemma_spaces(s, member.lead, first, values, limits);
    let a = capture_all(s, member.lead, limits)->Ok_0;
    lemma_all_of_two(s, member.lead, quoted, limits);
    let opened = quote_byte(a)->Ok_0;
    lemma_quoted(a, opened, member.key, limits);
    let n = member.key.len() as int;
    let closed = CaptureV { in_string: false, ..inside_string(opened, member.key, n, limits) };
    if n <= limits.key_bytes {
        assert(closed.string =~= member.key);
    }
    let meaning = key_meaning(member.key, context, limits);
    let keyed = UsageContainer {
        context: Some(context),
        state: UsageJsonState::ObjectColon,
        key: meaning,
    };
    let second = outer.push(keyed);
    let b = key_end(closed)->Ok_0;
    assert(b.containers =~= second);
    assert(at_rest(b, second, values));
    lemma_spaces(b, member.gap, second, values, limits);
    let c = capture_all(b, member.gap, limits)->Ok_0;
    lemma_all_of_two(s, member.lead + quoted, member.gap, limits);
    lemma_all_of_two(s, member.lead + quoted + member.gap, seq![58u8], limits);
    lemma_all_of_one(c, 58u8, limits);
    lemma_next_byte(c, 58u8, second, values, limits);
    let d = mark_byte(c, 58u8)->Ok_0;
    assert(d.containers =~= outer.push(
        UsageContainer { state: UsageJsonState::ObjectValue, ..keyed },
    ));
}

proof fn lemma_value(
    s: CaptureV,
    value: ValueText,
    key: ProjectedUsageKey,
    containers: Seq<UsageContainer>,
    values: Seq<Option<(u8, u64)>>,
    limits: UsageLimits,
)
    requires
        at_rest(s, containers, values),
        awaits_value(containers, key),
        value_is_read(value, key, containers.len(), limits),
    ensures
        capture_all(s, value_bytes(value), limits) matches Ok(x) && value_done(
            x,
            started(containers),
            kept_of(values, value_offers(value, key, limits)),
        ),
    decreases value, 0nat,
{
    lemma_spaces(s, value.before, containers, values, limits);
    let a = capture_all(s, value.before, limits)->Ok_0;
    lemma_node(a, value.node, key, containers, values, limits);
    let b = capture_all(a, node_bytes(value.node), limits)->Ok_0;
    let after = kept_of(values, value_offers(value, key, limits));
    lemma_spaces(b, value.after, started(containers), after, limits);
    lemma_all_of_two(s, value.before, node_bytes(value.node), limits);
    lemma_all_of_two(s, value.before + node_bytes(value.node), value.after, limits);
}

proof fn lemma_node(
    s: CaptureV,
    node: NodeText,
    key: ProjectedUsageKey,
    containers: Seq<UsageContainer>,
    values: Seq<Option<(u8, u64)>>,
    limits: UsageLimits,
)
    requires
        at_rest(s, containers, values),
        awaits_value(containers, key),
        node_is_read(node, key, containers.len(), limits),
    ensures
        capture_all(s, node_bytes(node), limits) matches Ok(x) && value_done(
            x,
            started(containers),
            kept_of(values, node_offers(node, key, limits)),
        ),
    decreases node, 0nat,
{
    match node {
        NodeText::Scalar(bytes) => {
            lemma_scalar_node(s, bytes, key, containers, values, limits);
        },
        NodeText::Text(bytes) => {
            lemma_text_node(s, bytes, key, containers, values, limits);
        },
        NodeText::Object(members, inner) => {
            lemma_value_starts(s, key);
            let outer = started(containers);
            let context = context_under(key);
            let body = if members.len() == 0 {
                inner
            } else {
                members_bytes(members, members.len())
            };
            lemma_all_of_one(s, 123u8, limits);
            let a = open_byte(s, 123u8, limits)->Ok_0;
            let inside = outer.push(
                open_container(Some(context), UsageJsonState::ObjectKeyOrEnd),
            );
            assert(a.containers =~= inside);
            assert(at_rest(a, inside, values));
            lemma_all_of_two(s, seq![123u8], body, limits);
            let after = kept_of(values, node_offers(node, key, limits));
            let last = outer.push(
                open_container(Some(context), object_state(members.len())),
            );
            if members.len() == 0 {
                lemma_spaces(a, inner, inside, values, limits);
            } else {
                lemma_members(a, members, members.len(), context, outer, values, limits);
            }
            let b = capture_all(a, body, limits)->Ok_0;
            assert(value_done(b, last, after));
            lemma_all_of_two(s, seq![123u8] + body, seq![125u8], limits);
            lemma_all_of_one(b, 125u8, limits);
            lemma_next_byte(b, 125u8, last, after, limits);
            assert(last.drop_last() =~= outer);
        },
        NodeText::List(items, inner) => {
            lemma_value_starts(s, key);
            let outer = started(containers);
            let body = if items.len() == 0 {
                inner
            } else {
                items_bytes(items, items.len())
            };
            lemma_all_of_one(s, 91u8, limits);
            let a = open_byte(s, 91u8, limits)->Ok_0;
            let inside = outer.push(open_container(None, UsageJsonState::ArrayValueOrEnd));
            assert(a.containers =~= inside);
            assert(at_rest(a, inside, values));
            lemma_all_of_two(s, seq![91u8], body, limits);
            let after = kept_of(values, node_offers(node, key, limits));
            let last = outer.push(open_container(None, list_state(items.len())));
            if items.len() == 0 {
                lemma_spaces(a, inner, inside, values, limits);
            } else {
                lemma_items(a, items, items.len(), outer, values, limits);
            }
            let b = capture_all(a, body, limits)->Ok_0;
            assert(value_done(b, last, after));
            lemma_all_of_two(s, seq![91u8] + body, seq![93u8], limits);
            lemma_all_of_one(b, 93u8, limits);
            lemma_next_byte(b, 93u8, last, after, limits);
            assert(last.drop_last() =~= outer);
        },
    }
}

proof fn lemma_members(
    s: CaptureV,
    members: Seq<MemberText>,
    n: nat,
    context: UsageObjectContext,
    outer: Seq<UsageContainer>,
    values: Seq<Option<(u8, u64)>>,
    limits: UsageLimits,
)
    requires
        n <= members.len(),
        at_rest(
            s,
            outer.push(open_container(Some(context), UsageJsonState::ObjectKeyOrEnd)),
            values,
        ),
        forall|i: int|
            0 <= i < members.len() ==> member_is_read(
                #[trigger] members[i],
                context,
                outer.len() + 1,
                limits,
            ),
    ensures
        capture_all(s, members_bytes(members, n), limits) matches Ok(x) && value_done(
            x,
            outer.push(open_container(Some(context), object_state(n))),
            kept_of(values, members_offers(members, n, context, limits)),
        ),
    decreases members, n,
{
    if n > 0 {
        let m = (n - 1) as nat;
        let member = members[n - 1];
        assert(member_is_read(member, context, outer.len() + 1, limits));
        lemma_members(s, members, m, context, outer, values, limits);
        let a = capture_all(s, members_bytes(members, m), limits)->Ok_0;
        let sofar = kept_of(values, members_offers(members, m, context, limits));
        let ready = outer.push(open_container(Some(context), object_state(m)));
        let state = if n > 1 {
            UsageJsonState::ObjectKey
        } else {
            UsageJsonState::ObjectKeyOrEnd
        };
        let next = outer.push(open_container(Some(context), state));
        // Before the first member nothing has been read; before any other stands a comma.
        lemma_all_of_two(s, members_bytes(members, m), comma_before(n), limits);
        let b = capture_all(a, comma_before(n), limits)->Ok_0;
        if n > 1 {
            lemma_all_of_one(a, 44u8, limits);
            lemma_next_byte(a, 44u8, ready, sofar, limits);
            assert(b.containers =~= next);
        } else {
            assert(members_bytes(members, 0) == Seq::<u8>::empty());
            assert(a == s);
            assert(b == s);
        }
        assert(at_rest(b, next, sofar));
        lemma_key(b, member, context, outer, state, sofar, limits);
        let c = capture_all(b, key_bytes(member), limits)->Ok_0;
        let key = key_meaning(member.key, context, limits);
        let waiting = outer.push(
            UsageContainer { context: Some(context), state: UsageJsonState::ObjectValue, key },
        );
        lemma_value(c, member.value, key, waiting, sofar, limits);
        let after = outer.push(open_container(Some(context), object_state(n)));
        assert(started(waiting) =~= after);
        let front = members_bytes(members, m) + comma_before(n);
        lemma_all_of_two(b, key_bytes(member), value_bytes(member.value), limits);
        lemma_all_of_two(s, front, member_bytes(member), limits);
        lemma_kept_of_two(
            values,
            members_offers(members, m, context, limits),
            member_offers(member, context, limits),
        );
    } else {
        assert(capture_all(s, members_bytes(members, 0), limits) == Ok::<CaptureV, UsageFault>(s));
    }
}

proof fn lemma_items(
    s: CaptureV,
    items: Seq<ValueText>,
    n: nat,
    outer: Seq<UsageContainer>,
    values: Seq<Option<(u8, u64)>>,
    limits: UsageLimits,
)
    requires
        n <= items.len(),
        at_rest(s, outer.push(open_container(None, UsageJsonState::ArrayValueOrEnd)), values),
        forall|i: int|
            0 <= i < items.len() ==> value_is_read(
                #[trigger] items[i],
                ProjectedUsageKey::Other,
                outer.len() + 1,
                limits,
            ),
    ensures
        capture_all(s, items_bytes(items, n), limits) matches Ok(x) && value_done(
            x,
            outer.push(open_container(None, list_state(n))),
            kept_of(values, items_offers(items, n, limits)),
        ),
    decreases items, n,
{
    if n > 0 {
        let m = (n - 1) as nat;
        let item = items[n - 1];
        assert(value_is_read(item, ProjectedUsageKey::Other, outer.len() + 1, limits));
        lemma_items(s, items, m, outer, values, limits);
        let a = capture_all(s, items_bytes(items, m), limits)->Ok_0;
        let sofar = kept_of(values, items_offers(items, m, limits));
        let ready = outer.push(open_container(None, list_state(m)));
        let state = if n > 1 {
            UsageJsonState::ArrayValue
        } else {
            UsageJsonState::ArrayValueOrEnd
        };
        let next = outer.push(open_container(None, state));
        lemma_all_of_two(s, items_bytes(items, m), comma_before(n), limits);
        let b = capture_all(a, comma_before(n), limits)->Ok_0;
        if n > 1 {
            lemma_all_of_one(a, 44u8, limits);
            lemma_next_byte(a, 44u8, ready, sofar, limits);
            assert(b.containers =~= next);
        } else {
            assert(items_bytes(items, 0) == Seq::<u8>::empty());
            assert(a == s);
            assert(b == s);
        }
        assert(at_rest(b, next, sofar));
        lemma_value(b, item, ProjectedUsageKey::Other, next, sofar, limits);
        let after = outer.push(open_container(None, list_state(n)));
        assert(started(next) =~= after);
        let front = items_bytes(items, m) + comma_before(n);
        lemma_all_of_two(s, front, value_bytes(item), limits);
        lemma_kept_of_two(
            values,
            items_offers(items, m, limits),
            value_offers(item, ProjectedUsageKey::Other, limits),
        );
    } else {
        assert(capture_all(s, items_bytes(items, 0), limits) == Ok::<CaptureV, UsageFault>(s));
    }
}

/// The bytes of a usage member after the brace that opens it, up to and with the one that closes
/// it.
pub open spec fn usage_bytes(members: Seq<MemberText>, inner: Seq<u8>) -> Seq<u8> {
    (if members.len() == 0 {
        inner
    } else {
        members_bytes(members, members.len())
    }) + seq![125u8]
}

/// The text of a usage member within the limits.
pub open spec fn usage_is_read(
    members: Seq<MemberText>,
    inner: Seq<u8>,
    limits: UsageLimits,
) -> bool {
    &&& all_spaces(inner)
    &&& forall|i: int|
        0 <= i < members.len() ==> member_is_read(
            #[trigger] members[i],
            UsageObjectContext::Root,
            1,
            limits,
        )
}

/// The numbers that a usage member offers, in the order of its text.
pub open spec fn usage_offers(members: Seq<MemberText>, limits: UsageLimits) -> Seq<Offer> {
    members_offers(members, members.len(), UsageObjectContext::Root, limits)
}

/// No numbers.
pub open spec fn no_numbers() -> Seq<Option<(u8, u64)>> {
    Seq::new(6, |i: int| None)
}

/// Where nothing is open, nothing is half read.
spec fn nothing_dangles(s: CaptureV) -> bool {
    s.containers.len() == 0 ==> !s.in_string && s.scalar.len() == 0 && !s.scalar_overflow
}

proof fn lemma_nothing_dangles(s: CaptureV, bytes: Seq<u8>, limits: UsageLimits)
    requires
        nothing_dangles(s),
    ensures
        capture_all(s, bytes, limits) matches Ok(t) ==> nothing_dangles(t),
    decreases bytes.len(),
{
    if bytes.len() > 0 {
        lemma_nothing_dangles(s, bytes.drop_last(), limits);
    }
}

/// Once the member has ended, only white space is taken.
proof fn lemma_nothing_follows(s: CaptureV, bytes: Seq<u8>, limits: UsageLimits)
    requires
        nothing_dangles(s),
        s.containers.len() == 0,
    ensures
        capture_all(s, bytes, limits) matches Ok(t) ==> t.containers.len() == 0 && nothing_dangles(
            t,
        ) && all_spaces(bytes),
    decreases bytes.len(),
{
    if bytes.len() > 0 {
        let front = bytes.drop_last();
        lemma_nothing_follows(s, front, limits);
        if capture_all(s, bytes, limits) is Ok {
            let t = capture_all(s, front, limits)->Ok_0;
            assert(is_space(bytes.last()));
            assert forall|i: int| 0 <= i < bytes.len() implies is_space(#[trigger] bytes[i]) by {
                if i < front.len() {
                    assert(is_space(front[i]));
                }
            }
        }
    }
}

/// A usage member whose text is a document within the limits is read without a fault. It has ended
/// at its last byte and not before, and then the numbers are those that its text offers, each put
/// in by its spelling.
pub proof fn a_usage_member_is_read(
    members: Seq<MemberText>,
    inner: Seq<u8>,
    n: int,
    limits: UsageLimits,
)
    requires
        usage_is_read(members, inner, limits),
        0 < n <= usage_bytes(members, inner).len(),
    ensures
        ({
            let bytes = usage_bytes(members, inner);
            let before = capture_all(fresh_capture(), bytes.subrange(0, n - 1), limits);
            let after = capture_all(fresh_capture(), bytes.subrange(0, n), limits);
            &&& before is Ok
            &&& after is Ok
            &&& member_ended(before->Ok_0, after->Ok_0, bytes[n - 1]) <==> n == bytes.len()
            &&& n == bytes.len() ==> after->Ok_0.values == kept_of(
                no_numbers(),
                usage_offers(members, limits),
            )
        }),
{
    let s = fresh_capture();
    let bytes = usage_bytes(members, inner);
    let body = if members.len() == 0 {
        inner
    } else {
        members_bytes(members, members.len())
    };
    let none = Seq::<UsageContainer>::empty();
    let root = UsageObjectContext::Root;
    let first = none.push(open_container(Some(root), UsageJsonState::ObjectKeyOrEnd));
    let last = none.push(open_container(Some(root), object_state(members.len())));
    let offered = kept_of(no_numbers(), usage_offers(members, limits));
    assert(s.containers =~= first);
    assert(s.values =~= no_numbers());
    assert(at_rest(s, first, no_numbers()));
    if members.len() == 0 {
        lemma_spaces(s, inner, first, no_numbers(), limits);
    } else {
        assert forall|i: int| 0 <= i < members.len() implies member_is_read(
            #[trigger] members[i],
            root,
            none.len() + 1,
            limits,
        ) by {
            assert(member_is_read(members[i], root, 1, limits));
        }
        lemma_members(s, members, members.len(), root, none, no_numbers(), limits);
    }
    let a = capture_all(s, body, limits)->Ok_0;
    assert(value_done(a, last, offered));
    lemma_all_of_two(s, body, seq![125u8], limits);
    lemma_all_of_one(a, 125u8, limits);
    lemma_next_byte(a, 125u8, last, offered, limits);
    assert(last.drop_last() =~= none);
    let end = capture_all(s, bytes, limits)->Ok_0;
    assert(bytes.subrange(0, bytes.len() as int) =~= bytes);
    assert(bytes.subrange(0, bytes.len() - 1) =~= body);
    assert(end.containers.len() == 0);
    // A prefix of what is read without a fault is read without one.
    lemma_prefix_is_read(s, bytes, n, limits);
    lemma_prefix_is_read(s, bytes, n - 1, limits);
    let after = capture_all(s, bytes.subrange(0, n), limits)->Ok_0;
    if n < bytes.len() && after.containers.len() == 0 {
        let rest = bytes.subrange(n, bytes.len() as int);
        assert(bytes.subrange(0, n) + rest =~= bytes);
        lemma_all_of_two(s, bytes.subrange(0, n), rest, limits);
        lemma_nothing_dangles(s, bytes.subrange(0, n), limits);
        lemma_nothing_follows(after, rest, limits);
        assert(is_space(rest[rest.len() - 1]));
        assert(rest[rest.len() - 1] == 125);
    }
}

proof fn lemma_prefix_is_read(s: CaptureV, bytes: Seq<u8>, n: int, limits: UsageLimits)
    requires
        0 <= n <= bytes.len(),
        capture_all(s, bytes, limits) is Ok,
    ensures
        capture_all(s, bytes.subrange(0, n), limits) is Ok,
{
    let rest = bytes.subrange(n, bytes.len() as int);
    assert(bytes.subrange(0, n) + rest =~= bytes);
    lemma_all_of_two(s, bytes.subrange(0, n), rest, limits);
}

/// The offer is the best one for its field: no other has a smaller number, and none after it has
/// the same.
pub open spec fn is_best(offers: Seq<Offer>, i: int) -> bool {
    &&& 0 <= i < offers.len()
    &&& forall|j: int|
        0 <= j < offers.len() && (#[trigger] offers[j]).field == offers[i].field
            ==> offers[i].priority < offers[j].priority || (offers[i].priority
            == offers[j].priority && j <= i)
}

/// Of the numbers that are offered for a field, the one with the best spelling is kept, and the
/// last of several with it; without an offer there is none.
pub proof fn the_best_offer_is_kept(offers: Seq<Offer>, field: ProjectedUsageField)
    ensures
        match kept_of(no_numbers(), offers)[field_index(field)] {
            Some((priority, number)) => exists|i: int|
                #[trigger] is_best(offers, i) && offers[i] == (Offer { field, priority, number }),
            None => forall|i: int|
                0 <= i < offers.len() ==> (#[trigger] offers[i]).field != field,
        },
        kept_of(no_numbers(), offers).len() == 6,
    decreases offers.len(),
{
    if offers.len() > 0 {
        let front = offers.drop_last();
        let last = offers.last();
        let n = offers.len() - 1;
        the_best_offer_is_kept(front, field);
        let before = kept_of(no_numbers(), front);
        let k = field_index(field);
        assert(offers[n] == last);
        if last.field == field {
            assert(field_index(last.field) == k);
        } else {
            assert(field_index(last.field) != k);
        }
        match before[k] {
            Some((priority, number)) => {
                let i = choose|i: int|
                    #[trigger] is_best(front, i) && front[i] == (Offer { field, priority, number });
                if last.field == field && last.priority <= priority {
                    assert forall|j: int|
                        0 <= j < offers.len() && (#[trigger] offers[j]).field
                            == offers[n].field implies offers[n].priority < offers[j].priority || (
                    offers[n].priority == offers[j].priority && j <= n) by {
                        if j < n {
                            assert(front[j] == offers[j]);
                        }
                    }
                    assert(is_best(offers, n));
                } else {
                    assert(offers[i] == front[i]);
                    assert forall|j: int|
                        0 <= j < offers.len() && (#[trigger] offers[j]).field
                            == offers[i].field implies offers[i].priority < offers[j].priority || (
                    offers[i].priority == offers[j].priority && j <= i) by {
                        if j < n {
                            assert(front[j] == offers[j]);
                        }
                    }
                    assert(is_best(offers, i));
                }
            },
            None => {
                assert forall|j: int| 0 <= j < n implies (#[trigger] offers[j]).field != field by {
                    assert(front[j].field != field);
                }
                if last.field == field {
                    assert(is_best(offers, n));
                }
            },
        }
    }
}

} // verus!
