//! What a request says of itself: its conversation, its route, and the header lines that may go
//! upstream.
use crate::digest::{
    Fingerprint, add_all, add_text, sha256, sha256_of, update_length_prefixed_digest, with_length,
};
use crate::ids::hyphenated;
use crate::json::{
    Json, JsonV, json_text, only_reserved, parse_text, read_again, read_under, reserved_key,
    same_but_floats, string_view, text_parsed, text_view, unreserved,
};
use crate::local_router::compaction::ResponsesRequestKind;
use crate::local_router::errors::{Failure, FailureV, fail};
use crate::local_router::routing::{ProtocolBridge, headers_result, route_id};
use crate::text::{
    Sep, byte_len, cat2, cat3, eq_ignoring_case, has_control, has_prefix, head, is_alnum, join,
    joined, lacks, list_has, lower, pairs_view, same_ignoring_case, split, split_pieces_lack,
    split_text, split_undoes_join, starts_with, str_eq, text_byte_len, text_has_control, texts,
    texts_push, to_lower, trim, trim_leaves_clean_ends, trimmed, words,
};
use vstd::prelude::*;
use vstd::string::*;
use vstd::utf8::*;

verus! {

pub const ROUTER_AUTH_HEADER: &'static str = "x-codey-router-token";

pub const TURN_METADATA_HEADER: &'static str = "x-codex-turn-metadata";

pub const ROUTE_METADATA_KEY: &'static str = "codey_route";

pub const CHATGPT_ACCOUNT_ID_HEADER: &'static str = "chatgpt-account-id";

pub const PROMPT_CACHE_KEY_HEADER: &'static str = "prompt-cache-key";

pub const PROMPT_CACHE_KEY_COMPAT_HEADER: &'static str = "prompt_cache_key";

pub const ROUTING_HINT_HEADER: &'static str = "x-codex-routing-hint";

/// A request to the router.
#[derive(Debug)]
pub struct HttpRequest {
    pub method: String,
    pub path: String,
    pub headers: Vec<(String, String)>,
    pub body: Vec<u8>,
}

/// The value of the first header line with a name, in whatever case it is written.
pub open spec fn header_value(headers: Seq<(Seq<char>, Seq<char>)>, name: Seq<char>) -> Option<
    Seq<char>,
>
    decreases headers.len(),
{
    if headers.len() == 0 {
        None
    } else if same_ignoring_case(headers[0].0, name) {
        Some(headers[0].1)
    } else {
        header_value(headers.subrange(1, headers.len() as int), name)
    }
}

/// The value of the first header line with a name.
pub fn incoming_header<'a>(headers: &'a Vec<(String, String)>, name: &str) -> (r: Option<&'a str>)
    ensures
        text_view(r) == header_value(pairs_view(headers@), name@),
{
    let ghost all = pairs_view(headers@);
    let mut i: usize = 0;
    proof {
        assert(all.subrange(0, all.len() as int) =~= all);
    }
    while i < headers.len()
        invariant
            i <= headers.len(),
            all == pairs_view(headers@),
            header_value(all, name@) == header_value(
                all.subrange(i as int, all.len() as int),
                name@,
            ),
        decreases headers.len() - i,
    {
        proof {
            let rest = all.subrange(i as int, all.len() as int);
            assert(rest[0] == (headers@[i as int].0@, headers@[i as int].1@));
            assert(rest.subrange(1, rest.len() as int) =~= all.subrange(i + 1, all.len() as int));
        }
        if eq_ignoring_case(headers[i].0.as_str(), name) {
            return Some(headers[i].1.as_str());
        }
        i = i + 1;
    }
    None
}

/// Whether an upstream is asked to stream although the client wants a whole answer.
pub fn should_force_upstream_streaming(
    bridge: ProtocolBridge,
    request_kind: ResponsesRequestKind,
    downstream_websocket: bool,
    stream_requested: bool,
) -> (r: bool)
    ensures
        r == (request_kind == ResponsesRequestKind::Create && !downstream_websocket
            && !stream_requested && bridge != ProtocolBridge::NativeResponses),
{
    let create = match request_kind {
        ResponsesRequestKind::Create => true,
        ResponsesRequestKind::Compact => false,
    };
    create && !downstream_websocket && !stream_requested && bridge.can_collect_streamed_response()
}

/// An id that may stand for a conversation: not empty, short, without control characters.
pub open spec fn is_plain_id(s: Seq<char>) -> bool {
    s.len() > 0 && byte_len(s) <= 256 && !has_control(s)
}

fn plain_id(s: &str) -> (r: bool)
    ensures
        r == is_plain_id(s@),
{
    !s.is_empty() && text_byte_len(s) <= 256 && !text_has_control(s)
}

/// The key of a conversation in one header line.
pub open spec fn binding_key(headers: Seq<(Seq<char>, Seq<char>)>, name: Seq<char>) -> Option<
    Seq<char>,
> {
    match header_value(headers, name) {
        None => None,
        Some(v) => if is_plain_id(trim(v)) {
            Some(name + ":"@ + trim(v))
        } else {
            None
        },
    }
}

/// The keys of a conversation: that of its thread, then that of its session.
pub open spec fn binding_keys(headers: Seq<(Seq<char>, Seq<char>)>) -> Seq<Seq<char>> {
    let thread = match binding_key(headers, "thread-id"@) {
        Some(k) => seq![k],
        None => Seq::empty(),
    };
    match binding_key(headers, "session-id"@) {
        Some(k) => thread.push(k),
        None => thread,
    }
}

fn key_in_header(headers: &Vec<(String, String)>, name: &str) -> (r: Option<String>)
    ensures
        string_view(r) == binding_key(pairs_view(headers@), name@),
{
    match incoming_header(headers, name) {
        None => None,
        Some(v) => {
            let t = trimmed(v);
            if plain_id(t.as_str()) {
                Some(cat3(name, ":", t.as_str()))
            } else {
                None
            }
        },
    }
}

/// The keys of a request's conversation.
pub fn request_binding_keys(headers: &Vec<(String, String)>) -> (r: Vec<String>)
    ensures
        texts(r@) == binding_keys(pairs_view(headers@)),
{
    let mut out: Vec<String> = Vec::new();
    proof {
        assert(texts(out@) =~= Seq::<Seq<char>>::empty());
    }
    if let Some(k) = key_in_header(headers, "thread-id") {
        out.push(k);
        proof {
            assert(texts(out@) =~= seq![k@]);
        }
    }
    if let Some(k) = key_in_header(headers, "session-id") {
        proof {
            texts_push(out@, k);
        }
        out.push(k);
    }
    proof {
        assert(texts(out@) =~= binding_keys(pairs_view(headers@)));
    }
    out
}

/// An id of a session as the log has it.
pub open spec fn session_id(value: Seq<char>) -> Option<Seq<char>> {
    if is_plain_id(trim(value)) {
        Some(trim(value))
    } else {
        None
    }
}

/// An id of a session as the log has it.
pub fn valid_codex_session_id(value: &str) -> (r: Option<String>)
    ensures
        string_view(r) == session_id(value@),
{
    let t = trimmed(value);
    if plain_id(t.as_str()) {
        Some(t)
    } else {
        None
    }
}

/// The session that a request belongs to, and whether it is that of a parent.
pub open spec fn log_session(headers: Seq<(Seq<char>, Seq<char>)>) -> (Option<Seq<char>>, bool) {
    match header_value(headers, "x-codex-parent-thread-id"@) {
        Some(parent) => (session_id(parent), true),
        None => if header_value(headers, "x-openai-subagent"@) is Some {
            (None, true)
        } else {
            let own = match header_value(headers, "thread-id"@) {
                Some(v) => Some(v),
                None => header_value(headers, "session-id"@),
            };
            match own {
                Some(v) => (session_id(v), false),
                None => (None, false),
            }
        },
    }
}

/// The session that a request belongs to, and whether it is that of a parent.
pub fn request_log_codex_session(headers: &Vec<(String, String)>) -> (r: (Option<String>, bool))
    ensures
        (string_view(r.0), r.1) == log_session(pairs_view(headers@)),
{
    if let Some(parent) = incoming_header(headers, "x-codex-parent-thread-id") {
        return (valid_codex_session_id(parent), true);
    }
    if incoming_header(headers, "x-openai-subagent").is_some() {
        return (None, true);
    }
    let own = match incoming_header(headers, "thread-id") {
        Some(v) => Some(v),
        None => incoming_header(headers, "session-id"),
    };
    match own {
        Some(v) => (valid_codex_session_id(v), false),
        None => (None, false),
    }
}

/// Whether a request comes from a subagent.
pub fn request_is_subagent(headers: &Vec<(String, String)>) -> (r: bool)
    ensures
        r == (header_value(pairs_view(headers@), "x-openai-subagent"@) is Some || header_value(
            pairs_view(headers@),
            "x-codex-parent-thread-id"@,
        ) is Some),
{
    incoming_header(headers, "x-openai-subagent").is_some() || incoming_header(
        headers,
        "x-codex-parent-thread-id",
    ).is_some()
}

/// A route that a request names.
pub open spec fn route_hint(value: JsonV) -> Result<Seq<char>, FailureV> {
    match value.as_str() {
        None => Err(FailureV::Text("codey_route 必须是字符串"@)),
        Some(s) => if is_plain_id(trim(s)) {
            Ok(trim(s))
        } else {
            Err(FailureV::Text("codey_route 不是有效的线路 ID"@))
        },
    }
}

pub open spec fn string_result(r: Result<String, Failure>) -> Result<Seq<char>, FailureV> {
    match r {
        Ok(s) => Ok(s@),
        Err(e) => Err(e@),
    }
}

/// Reads a route that a request names.
pub fn validated_route_hint_value(value: &Json) -> (r: Result<String, Failure>)
    ensures
        string_result(r) == route_hint(value@),
{
    match value.as_str() {
        None => Err(fail("codey_route 必须是字符串")),
        Some(s) => {
            let t = trimmed(s);
            if plain_id(t.as_str()) {
                Ok(t)
            } else {
                Err(fail("codey_route 不是有效的线路 ID"))
            }
        },
    }
}

/// The route in metadata, if it holds one.
pub open spec fn hint_in(metadata: JsonV) -> Result<Option<Seq<char>>, FailureV> {
    match metadata.get(ROUTE_METADATA_KEY@) {
        None => Ok(None),
        Some(v) => match route_hint(v) {
            Ok(h) => Ok(Some(h)),
            Err(e) => Err(e),
        },
    }
}

pub open spec fn hint_result(r: Result<Option<String>, Failure>) -> Result<
    Option<Seq<char>>,
    FailureV,
> {
    match r {
        Ok(h) => Ok(string_view(h)),
        Err(e) => Err(e@),
    }
}

/// Takes the route out of metadata.
pub fn take_route_hint_from_metadata_value(metadata: &mut Json) -> (r: Result<
    Option<String>,
    Failure,
>)
    ensures
        hint_result(r) == hint_in(old(metadata)@),
        final(metadata)@ == old(metadata)@.without(ROUTE_METADATA_KEY@),
{
    match metadata.remove(ROUTE_METADATA_KEY) {
        None => Ok(None),
        Some(v) => match validated_route_hint_value(&v) {
            Ok(h) => Ok(Some(h)),
            Err(e) => Err(e),
        },
    }
}

/// Two routes that a request names must be one.
pub open spec fn merged_hint(current: Option<Seq<char>>, next: Option<Seq<char>>) -> Result<
    Option<Seq<char>>,
    FailureV,
> {
    match (current, next) {
        (_, None) => Ok(current),
        (Some(c), Some(n)) => if c != n {
            Err(FailureV::Text("请求头和请求体携带了冲突的 codey_route"@))
        } else {
            Ok(next)
        },
        (None, Some(_)) => Ok(next),
    }
}

/// Adds a route that a request names.
pub fn merge_route_hint(current: &mut Option<String>, next: Option<String>) -> (r: Result<
    (),
    Failure,
>)
    ensures
        match r {
            Ok(()) => merged_hint(string_view(*old(current)), string_view(next)) == Ok::<
                Option<Seq<char>>,
                FailureV,
            >(string_view(*final(current))),
            Err(e) => merged_hint(string_view(*old(current)), string_view(next)) == Err::<
                Option<Seq<char>>,
                FailureV,
            >(e@) && *final(current) == *old(current),
        },
{
    match next {
        None => Ok(()),
        Some(n) => {
            let conflict = match current {
                Some(c) => !str_eq(c.as_str(), n.as_str()),
                None => false,
            };
            if conflict {
                return Err(fail("请求头和请求体携带了冲突的 codey_route"));
            }
            *current = Some(n);
            Ok(())
        },
    }
}

/// What has been read of the routes that a request names, and what is left of its header lines.
pub struct HintedHeaders {
    pub headers: Seq<(Seq<char>, Seq<char>)>,
    pub hint: Option<Seq<char>>,
}

/// One more header line. Metadata that names a route is written anew without it; everything else
/// stays as it was sent.
pub open spec fn hint_step(state: HintedHeaders, header: (Seq<char>, Seq<char>)) -> Result<
    HintedHeaders,
    FailureV,
> {
    let kept = HintedHeaders { headers: state.headers.push(header), ..state };
    if !same_ignoring_case(header.0, TURN_METADATA_HEADER@) {
        Ok(kept)
    } else {
        match text_parsed(header.1) {
            Err(_) => Ok(kept),
            Ok(metadata) => match hint_in(metadata) {
                Err(e) => Err(e),
                Ok(None) => Ok(kept),
                Ok(Some(h)) => match merged_hint(state.hint, Some(h)) {
                    Err(e) => Err(e),
                    Ok(hint) => Ok(
                        HintedHeaders {
                            headers: state.headers.push(
                                (header.0, json_text(metadata.without(ROUTE_METADATA_KEY@))),
                            ),
                            hint,
                        },
                    ),
                },
            },
        }
    }
}

/// The first header lines.
pub open spec fn hint_steps(headers: Seq<(Seq<char>, Seq<char>)>, n: int) -> Result<
    HintedHeaders,
    FailureV,
>
    decreases n,
{
    if n <= 0 {
        Ok(HintedHeaders { headers: Seq::empty(), hint: None })
    } else {
        match hint_steps(headers, n - 1) {
            Err(e) => Err(e),
            Ok(state) => hint_step(state, headers[n - 1]),
        }
    }
}

proof fn lemma_hint_error_stays(headers: Seq<(Seq<char>, Seq<char>)>, n: int, m: int)
    requires
        0 <= n <= m,
        hint_steps(headers, n) is Err,
    ensures
        hint_steps(headers, m) == hint_steps(headers, n),
    decreases m - n,
{
    if n < m {
        lemma_hint_error_stays(headers, n, m - 1);
    }
}

/// What a request's body says of its route: the route, the metadata without it, and whether that
/// changed.
pub struct HintedBody {
    pub metadata: JsonV,
    pub hint: Option<Seq<char>>,
    pub changed: bool,
}

/// The nested metadata of a client's metadata. It is an object, or the text of a document.
pub open spec fn nested_step(state: HintedBody) -> Result<HintedBody, FailureV> {
    match state.metadata.get(TURN_METADATA_HEADER@) {
        None => Ok(state),
        Some(JsonV::Str(text)) => match text_parsed(text) {
            Err(_) => Ok(state),
            Ok(inner) => nested_hint(
                state,
                inner,
                JsonV::Str(json_text(inner.without(ROUTE_METADATA_KEY@))),
            ),
        },
        Some(inner) => if inner.is_object() {
            nested_hint(state, inner, inner.without(ROUTE_METADATA_KEY@))
        } else {
            Ok(state)
        },
    }
}

/// Nested metadata that names a route is replaced.
pub open spec fn nested_hint(state: HintedBody, inner: JsonV, cleaned: JsonV) -> Result<
    HintedBody,
    FailureV,
> {
    match hint_in(inner) {
        Err(e) => Err(e),
        Ok(None) => Ok(state),
        Ok(Some(h)) => match merged_hint(state.hint, Some(h)) {
            Err(e) => Err(e),
            Ok(hint) => Ok(
                HintedBody {
                    metadata: state.metadata.with(TURN_METADATA_HEADER@, cleaned),
                    hint,
                    changed: true,
                },
            ),
        },
    }
}

/// A client's metadata: a route of its own first, then the nested metadata.
pub open spec fn client_step(metadata: JsonV, hint: Option<Seq<char>>) -> Result<
    HintedBody,
    FailureV,
> {
    match hint_in(metadata) {
        Err(e) => Err(e),
        Ok(own) => match merged_hint(hint, own) {
            Err(e) => Err(e),
            Ok(both) => nested_step(
                HintedBody {
                    metadata: metadata.without(ROUTE_METADATA_KEY@),
                    hint: both,
                    changed: own is Some,
                },
            ),
        },
    }
}

/// What becomes of a request whose routes are taken out.
pub struct TakenHint {
    pub headers: Seq<(Seq<char>, Seq<char>)>,
    pub body: JsonV,
    pub hint: Option<Seq<char>>,
    pub changed: bool,
}

/// The route that a request names in its header lines and in its body, which must be one, and the
/// request without it.
pub open spec fn taken_hint(headers: Seq<(Seq<char>, Seq<char>)>, body: JsonV) -> Result<
    TakenHint,
    FailureV,
> {
    match hint_steps(headers, headers.len() as int) {
        Err(e) => Err(e),
        Ok(state) => match body.get_object("client_metadata"@) {
            None => Ok(
                TakenHint { headers: state.headers, body, hint: state.hint, changed: false },
            ),
            Some(metadata) => match client_step(metadata, state.hint) {
                Err(e) => Err(e),
                Ok(b) => Ok(
                    TakenHint {
                        headers: state.headers,
                        body: body.with("client_metadata"@, b.metadata),
                        hint: b.hint,
                        changed: b.changed,
                    },
                ),
            },
        },
    }
}

/// A header line that names no route.
pub open spec fn line_is_settled(header: (Seq<char>, Seq<char>)) -> bool {
    same_ignoring_case(header.0, TURN_METADATA_HEADER@) ==> match text_parsed(header.1) {
        Ok(metadata) => hint_in(metadata) == Ok::<Option<Seq<char>>, FailureV>(None),
        Err(_) => true,
    }
}

/// A client's metadata whose nested metadata name no route.
pub open spec fn nested_is_settled(metadata: JsonV) -> bool {
    match metadata.get(TURN_METADATA_HEADER@) {
        None => true,
        Some(JsonV::Str(text)) => match text_parsed(text) {
            Ok(inner) => hint_in(inner) == Ok::<Option<Seq<char>>, FailureV>(None),
            Err(_) => true,
        },
        Some(inner) => inner.is_object() ==> hint_in(inner) == Ok::<Option<Seq<char>>, FailureV>(
            None,
        ),
    }
}

/// Metadata that name a route again once their own is gone: with the route goes every key but the
/// one that `serde_json` keeps for raw values, and the document in the text under that key names a
/// route.
pub open spec fn hides_route(metadata: JsonV) -> bool {
    let rest = metadata.without(ROUTE_METADATA_KEY@);
    rest is Object && only_reserved(rest->Object_0) && match rest->Object_0[reserved_key()] {
        JsonV::Str(text) => match text_parsed(text) {
            Ok(inner) => hint_in(inner) != Ok::<Option<Seq<char>>, FailureV>(None),
            Err(_) => false,
        },
        _ => false,
    }
}

/// The metadata in a header line hide no second route.
pub open spec fn line_is_plain(header: (Seq<char>, Seq<char>)) -> bool {
    same_ignoring_case(header.0, TURN_METADATA_HEADER@) && text_parsed(header.1) is Ok
        ==> !hides_route(text_parsed(header.1)->Ok_0)
}

/// Nested metadata that are a text hide no second route.
pub open spec fn nested_is_plain(metadata: JsonV) -> bool {
    match metadata.get_str(TURN_METADATA_HEADER@) {
        Some(text) => text_parsed(text) is Ok ==> !hides_route(text_parsed(text)->Ok_0),
        None => true,
    }
}

/// The metadata that a request carries as text hide no second route.
pub open spec fn metadata_is_plain(headers: Seq<(Seq<char>, Seq<char>)>, body: JsonV) -> bool {
    &&& forall|i: int| 0 <= i < headers.len() ==> line_is_plain(#[trigger] headers[i])
    &&& body.get_object("client_metadata"@) matches Some(metadata) ==> nested_is_plain(metadata)
}

/// A request that names no route: taking routes out of it changes nothing.
pub open spec fn names_no_route(headers: Seq<(Seq<char>, Seq<char>)>, body: JsonV) -> bool {
    taken_hint(headers, body) == Ok::<TakenHint, FailureV>(
        TakenHint { headers, body, hint: None, changed: false },
    )
}

/// Metadata that hide no second route, written without theirs and read again, name none.
proof fn lemma_stays_without_route(metadata: JsonV, written: Seq<char>)
    requires
        unreserved(metadata),
        !hides_route(metadata),
        read_again(text_parsed(written), metadata.without(ROUTE_METADATA_KEY@)),
    ensures
        text_parsed(written) matches Ok(again) ==> hint_in(again) == Ok::<
            Option<Seq<char>>,
            FailureV,
        >(None),
{
    let rest = metadata.without(ROUTE_METADATA_KEY@);
    if let JsonV::Object(m) = metadata {
        let members = m.remove(ROUTE_METADATA_KEY@);
        assert forall|key: Seq<char>| members.dom().contains(key) implies unreserved(
            #[trigger] members[key],
        ) by {
            assert(m.dom().contains(key) && m[key] == members[key]);
        }
        assert(!only_reserved(members) ==> unreserved(rest));
    }
    if let Ok(again) = text_parsed(written) {
        if rest is Object && only_reserved(rest->Object_0) {
            assert(read_under(text_parsed(written), rest->Object_0[reserved_key()]));
        } else {
            assert(same_but_floats(again, rest));
            assert(rest.get(ROUTE_METADATA_KEY@) is None);
            assert(again.get(ROUTE_METADATA_KEY@) is None);
        }
    }
}

proof fn lemma_settled_lines(headers: Seq<(Seq<char>, Seq<char>)>, n: int)
    requires
        0 <= n <= headers.len(),
        forall|i: int| 0 <= i < headers.len() ==> line_is_settled(#[trigger] headers[i]),
    ensures
        hint_steps(headers, n) == Ok::<HintedHeaders, FailureV>(
            HintedHeaders { headers: headers.subrange(0, n), hint: None },
        ),
    decreases n,
{
    if n > 0 {
        lemma_settled_lines(headers, n - 1);
        assert(line_is_settled(headers[n - 1]));
        assert(headers.subrange(0, n) =~= headers.subrange(0, n - 1).push(headers[n - 1]));
    } else {
        assert(headers.subrange(0, 0) =~= Seq::empty());
    }
}

proof fn lemma_settled_request(
    headers: Seq<(Seq<char>, Seq<char>)>,
    body: JsonV,
)
    requires
        forall|i: int| 0 <= i < headers.len() ==> line_is_settled(#[trigger] headers[i]),
        body.get_object("client_metadata"@) matches Some(metadata) ==> metadata.get(
            ROUTE_METADATA_KEY@,
        ) is None && nested_is_settled(metadata),
    ensures
        names_no_route(headers, body),
{
    lemma_settled_lines(headers, headers.len() as int);
    assert(headers.subrange(0, headers.len() as int) =~= headers);
    if let Some(metadata) = body.get_object("client_metadata"@) {
        if let JsonV::Object(m) = metadata {
            assert(m.remove(ROUTE_METADATA_KEY@) =~= m);
        }
        assert(metadata.without(ROUTE_METADATA_KEY@) == metadata);
        if let JsonV::Object(m) = body {
            assert(m.insert("client_metadata"@, metadata) =~= m);
        }
    }
}

/// A route that a request names is a usable id: trimmed, not empty, of at most 256 bytes and
/// without control characters.
pub proof fn a_taken_hint_is_usable(headers: Seq<(Seq<char>, Seq<char>)>, body: JsonV)
    requires
        taken_hint(headers, body) is Ok,
    ensures
        taken_hint(headers, body)->Ok_0.hint matches Some(h) ==> is_plain_id(h) && trim(h) == h,
{
    lemma_header_hint_is_usable(headers, headers.len() as int);
    if let Some(metadata) = body.get_object("client_metadata"@) {
        lemma_hint_is_trimmed(metadata);
        let own = metadata.without(ROUTE_METADATA_KEY@);
        match own.get(TURN_METADATA_HEADER@) {
            Some(JsonV::Str(text)) => {
                if let Ok(inner) = text_parsed(text) {
                    lemma_hint_is_trimmed(inner);
                }
            },
            Some(inner) => {
                lemma_hint_is_trimmed(inner);
            },
            None => {},
        }
    }
}

proof fn lemma_hint_is_trimmed(metadata: JsonV)
    ensures
        hint_in(metadata) matches Ok(Some(h)) ==> is_plain_id(h) && trim(h) == h,
{
    if let Some(JsonV::Str(s)) = metadata.get(ROUTE_METADATA_KEY@) {
        trim_leaves_clean_ends(s);
    }
}

proof fn lemma_header_hint_is_usable(headers: Seq<(Seq<char>, Seq<char>)>, n: int)
    ensures
        hint_steps(headers, n) matches Ok(state) ==> (state.hint matches Some(h) ==> is_plain_id(h)
            && trim(h) == h),
    decreases n,
{
    if n > 0 {
        lemma_header_hint_is_usable(headers, n - 1);
        if let Ok(metadata) = text_parsed(headers[n - 1].1) {
            lemma_hint_is_trimmed(metadata);
        }
    }
}

/// A route that metadata name.
pub open spec fn named_in(metadata: JsonV) -> Option<JsonV> {
    metadata.get("codey_route"@)
}

/// The metadata of a turn in a header line, where it holds some.
pub open spec fn line_metadata(header: (Seq<char>, Seq<char>)) -> Option<JsonV> {
    if lower(header.0) != lower("x-codex-turn-metadata"@) {
        None
    } else {
        match text_parsed(header.1) {
            Ok(metadata) => Some(metadata),
            Err(_) => None,
        }
    }
}

/// The metadata of a turn within the client's metadata: an object, or the text of a document.
pub open spec fn inner_metadata(metadata: JsonV) -> Option<JsonV> {
    match metadata.get("x-codex-turn-metadata"@) {
        Some(JsonV::Str(text)) => match text_parsed(text) {
            Ok(inner) => Some(inner),
            Err(_) => None,
        },
        Some(JsonV::Object(m)) => Some(JsonV::Object(m)),
        _ => None,
    }
}

/// The client's metadata in a body.
pub open spec fn client_metadata(body: JsonV) -> Option<JsonV> {
    match body.get("client_metadata"@) {
        Some(JsonV::Object(m)) => Some(JsonV::Object(m)),
        _ => None,
    }
}

/// Some place of the request names this route: a header line with a turn's metadata, the client's
/// metadata in the body, or the turn's metadata in them.
pub open spec fn names_route(
    headers: Seq<(Seq<char>, Seq<char>)>,
    body: JsonV,
    route: JsonV,
) -> bool {
    ||| exists|i: int|
        0 <= i < headers.len() && (line_metadata(#[trigger] headers[i]) matches Some(metadata)
            && named_in(metadata) == Some(route))
    ||| client_metadata(body) matches Some(metadata) && named_in(metadata) == Some(route)
    ||| client_metadata(body) matches Some(metadata) && (inner_metadata(metadata) matches Some(inner)
        && named_in(inner) == Some(route))
}

/// The route is the one in the text.
pub open spec fn is_route_text(route: JsonV, id: Seq<char>) -> bool {
    route matches JsonV::Str(text) && trim(text) == id
}

proof fn lemma_line_hints(headers: Seq<(Seq<char>, Seq<char>)>, n: int)
    requires
        0 <= n <= headers.len(),
        hint_steps(headers, n) is Ok,
    ensures
        ({
            let hint = hint_steps(headers, n)->Ok_0.hint;
            &&& forall|i: int|
                0 <= i < n && (line_metadata(#[trigger] headers[i]) matches Some(metadata)
                    && named_in(metadata) is Some) ==> hint is Some && is_route_text(
                    named_in(line_metadata(headers[i])->0)->0,
                    hint->0,
                )
            &&& hint is Some ==> exists|i: int|
                0 <= i < n && (line_metadata(#[trigger] headers[i]) matches Some(metadata)
                    && named_in(metadata) is Some)
        }),
    decreases n,
{
    if n > 0 {
        lemma_line_hints(headers, n - 1);
        let before = hint_steps(headers, n - 1)->Ok_0.hint;
        let header = headers[n - 1];
        if before is Some {
            let i = choose|i: int|
                0 <= i < n - 1 && (line_metadata(#[trigger] headers[i]) matches Some(metadata)
                    && named_in(metadata) is Some);
            assert(line_metadata(headers[i]) is Some);
        }
        if let Some(metadata) = line_metadata(header) {
            assert(metadata == text_parsed(header.1)->Ok_0);
        }
    }
}

/// The route that is taken from a request is the one which the request names. Wherever it names one,
/// that is the route; it names one wherever a route is taken; and where it names none, none is taken.
pub proof fn the_named_route_is_taken(
    headers: Seq<(Seq<char>, Seq<char>)>,
    body: JsonV,
    route: JsonV,
)
    requires
        taken_hint(headers, body) is Ok,
    ensures
        ({
            let hint = taken_hint(headers, body)->Ok_0.hint;
            &&& names_route(headers, body, route) ==> hint is Some && is_route_text(route, hint->0)
            &&& hint is Some ==> exists|named: JsonV| #[trigger]
                names_route(headers, body, named)
        }),
{
    let n = headers.len() as int;
    lemma_line_hints(headers, n);
    let first = hint_steps(headers, n)->Ok_0.hint;
    let hint = taken_hint(headers, body)->Ok_0.hint;
    reveal_strlit("x-codex-turn-metadata");
    reveal_strlit("codey_route");
    assert("x-codex-turn-metadata"@.len() == 21 && "codey_route"@.len() == 11);
    if first is Some {
        let i = choose|i: int|
            0 <= i < n && (line_metadata(#[trigger] headers[i]) matches Some(metadata) && named_in(
                metadata,
            ) is Some);
        let named = named_in(line_metadata(headers[i])->0)->0;
        assert(names_route(headers, body, named));
    }
    if exists|i: int|
        0 <= i < headers.len() && (line_metadata(#[trigger] headers[i]) matches Some(metadata)
            && named_in(metadata) == Some(route)) {
        let i = choose|i: int|
            0 <= i < headers.len() && (line_metadata(#[trigger] headers[i]) matches Some(metadata)
                && named_in(metadata) == Some(route));
        assert(is_route_text(route, first->0));
    }
    if let Some(metadata) = client_metadata(body) {
        assert(body.get_object("client_metadata"@) == Some(metadata));
        if let Some(named) = named_in(metadata) {
            assert(names_route(headers, body, named));
        }
        assert(inner_metadata(metadata.without(ROUTE_METADATA_KEY@)) == inner_metadata(metadata));
        if let Some(inner) = inner_metadata(metadata) {
            if let Some(named) = named_in(inner) {
                assert(names_route(headers, body, named));
            }
        }
    }
}

/// Taking the route out leaves everything else of the body as it was.
pub proof fn the_rest_of_the_body_stays(
    headers: Seq<(Seq<char>, Seq<char>)>,
    body: JsonV,
    key: Seq<char>,
)
    requires
        taken_hint(headers, body) is Ok,
        body.is_object(),
    ensures
        ({
            let after = taken_hint(headers, body)->Ok_0.body;
            &&& key != "client_metadata"@ ==> after.get(key) == body.get(key)
            &&& key != "codey_route"@ && key != "x-codex-turn-metadata"@ ==> after.get2(
                "client_metadata"@,
                key,
            ) == body.get2("client_metadata"@, key)
        }),
{
}

/// Taking a route out of a request leaves its header lines in their places, and changes none but
/// metadata of a turn.
pub proof fn other_lines_stay(headers: Seq<(Seq<char>, Seq<char>)>, body: JsonV)
    requires
        taken_hint(headers, body) is Ok,
    ensures
        ({
            let after = taken_hint(headers, body)->Ok_0.headers;
            &&& after.len() == headers.len()
            &&& forall|i: int|
                0 <= i < headers.len() ==> (#[trigger] after[i]).0 == headers[i].0 && (
                !same_ignoring_case(headers[i].0, TURN_METADATA_HEADER@) ==> after[i]
                    == headers[i])
        }),
{
    lemma_lines_stay(headers, headers.len() as int);
}

proof fn lemma_lines_stay(headers: Seq<(Seq<char>, Seq<char>)>, n: int)
    requires
        0 <= n <= headers.len(),
        hint_steps(headers, n) is Ok,
    ensures
        hint_steps(headers, n)->Ok_0.headers.len() == n,
        forall|i: int|
            0 <= i < n ==> (#[trigger] hint_steps(headers, n)->Ok_0.headers[i]).0 == headers[i].0
                && (!same_ignoring_case(headers[i].0, TURN_METADATA_HEADER@) ==> hint_steps(
                headers,
                n,
            )->Ok_0.headers[i] == headers[i]),
    decreases n,
{
    if n > 0 {
        lemma_lines_stay(headers, n - 1);
        let before = hint_steps(headers, n - 1)->Ok_0.headers;
        let after = hint_steps(headers, n)->Ok_0.headers;
        assert forall|i: int| 0 <= i < n implies (#[trigger] after[i]).0 == headers[i].0 && (
        !same_ignoring_case(headers[i].0, TURN_METADATA_HEADER@) ==> after[i] == headers[i]) by {
            if i < n - 1 {
                assert(after[i] == before[i]);
            }
        }
    }
}

fn take_header_hints(headers: &Vec<(String, String)>) -> (r: Result<
    (Vec<(String, String)>, Option<String>),
    Failure,
>)
    ensures
        match r {
            Ok((h, hint)) => hint_steps(pairs_view(headers@), headers.len() as int) == Ok::<
                HintedHeaders,
                FailureV,
            >(HintedHeaders { headers: pairs_view(h@), hint: string_view(hint) }) && forall|i: int|
                0 <= i < h.len() && line_is_plain(pairs_view(headers@)[i]) ==> line_is_settled(
                    #[trigger] pairs_view(h@)[i],
                ),
            Err(e) => hint_steps(pairs_view(headers@), headers.len() as int) == Err::<
                HintedHeaders,
                FailureV,
            >(e@),
        },
{
    let ghost all = pairs_view(headers@);
    let mut out: Vec<(String, String)> = Vec::new();
    let mut hint: Option<String> = None;
    let mut i: usize = 0;
    proof {
        assert(pairs_view(out@) =~= Seq::<(Seq<char>, Seq<char>)>::empty());
    }
    while i < headers.len()
        invariant
            i <= headers.len(),
            all == pairs_view(headers@),
            hint_steps(all, i as int) == Ok::<HintedHeaders, FailureV>(
                HintedHeaders { headers: pairs_view(out@), hint: string_view(hint) },
            ),
            out.len() == i,
            forall|j: int|
                0 <= j < i && line_is_plain(all[j]) ==> line_is_settled(
                    #[trigger] pairs_view(out@)[j],
                ),
        decreases headers.len() - i,
    {
        let name = headers[i].0.clone();
        let mut value = headers[i].1.clone();
        let ghost sent = value@;
        let ghost before = HintedHeaders { headers: pairs_view(out@), hint: string_view(hint) };
        let ghost done = out@;
        proof {
            assert(all[i as int] == (name@, sent));
        }
        if eq_ignoring_case(name.as_str(), TURN_METADATA_HEADER) {
            if let Ok(mut metadata) = parse_text(value.as_str()) {
                match take_route_hint_from_metadata_value(&mut metadata) {
                    Err(e) => {
                        proof {
                            lemma_hint_error_stays(all, i + 1, headers.len() as int);
                        }
                        return Err(e);
                    },
                    Ok(None) => {},
                    Ok(Some(h)) => {
                        value = metadata.to_text();
                        proof {
                            if line_is_plain((name@, sent)) {
                                lemma_stays_without_route(text_parsed(sent)->Ok_0, value@);
                            }
                            assert(hint_in(metadata@) == Ok::<Option<Seq<char>>, FailureV>(None));
                        }
                        if let Err(e) = merge_route_hint(&mut hint, Some(h)) {
                            proof {
                                lemma_hint_error_stays(all, i + 1, headers.len() as int);
                            }
                            return Err(e);
                        }
                    },
                }
            }
        }
        let ghost line = (name@, value@);
        out.push((name, value));
        proof {
            assert(pairs_view(out@) =~= pairs_view(done).push(line));
            assert(line_is_plain((name@, sent)) ==> line_is_settled(line));
            assert forall|j: int| 0 <= j < i + 1 && line_is_plain(all[j]) implies line_is_settled(
                #[trigger] pairs_view(out@)[j],
            ) by {
                if j < i {
                    assert(pairs_view(out@)[j] == pairs_view(done)[j]);
                }
            }
            assert(hint_step(before, (name@, sent)) == Ok::<HintedHeaders, FailureV>(
                HintedHeaders { headers: pairs_view(out@), hint: string_view(hint) },
            ));
        }
        i = i + 1;
    }
    Ok((out, hint))
}

fn take_nested_hint(metadata: &mut Json, hint: &mut Option<String>) -> (r: Result<bool, Failure>)
    ensures
        ({
            let state = HintedBody {
                metadata: old(metadata)@,
                hint: string_view(*old(hint)),
                changed: false,
            };
            match r {
                Ok(changed) => nested_step(state) == Ok::<HintedBody, FailureV>(
                    HintedBody {
                        metadata: final(metadata)@,
                        hint: string_view(*final(hint)),
                        changed,
                    },
                ) && (nested_is_plain(old(metadata)@) ==> nested_is_settled(final(metadata)@)),
                Err(e) => nested_step(state) == Err::<HintedBody, FailureV>(e@),
            }
        }),
{
    let nested = match metadata.get(TURN_METADATA_HEADER) {
        None => {
            return Ok(false);
        },
        Some(v) => v,
    };
    if let Some(text) = nested.as_str() {
        let mut inner = match parse_text(text) {
            Err(_) => {
                return Ok(false);
            },
            Ok(v) => v,
        };
        match take_route_hint_from_metadata_value(&mut inner) {
            Err(e) => Err(e),
            Ok(None) => Ok(false),
            Ok(Some(h)) => match merge_route_hint(hint, Some(h)) {
                Err(e) => Err(e),
                Ok(()) => {
                    let written = inner.to_text();
                    proof {
                        if nested_is_plain(old(metadata)@) {
                            lemma_stays_without_route(text_parsed(text@)->Ok_0, written@);
                        }
                    }
                    metadata.insert(TURN_METADATA_HEADER, Json::string(written));
                    Ok(true)
                },
            },
        }
    } else if nested.is_object() {
        let mut inner = nested.clone_json();
        match take_route_hint_from_metadata_value(&mut inner) {
            Err(e) => Err(e),
            Ok(None) => Ok(false),
            Ok(Some(h)) => match merge_route_hint(hint, Some(h)) {
                Err(e) => Err(e),
                Ok(()) => {
                    metadata.insert(TURN_METADATA_HEADER, inner);
                    Ok(true)
                },
            },
        }
    } else {
        Ok(false)
    }
}

proof fn lemma_changed_kept(state: HintedBody)
    ensures
        match nested_step(HintedBody { changed: false, ..state }) {
            Err(e) => nested_step(state) == Err::<HintedBody, FailureV>(e),
            Ok(b) => nested_step(state) == Ok::<HintedBody, FailureV>(
                HintedBody { changed: b.changed || state.changed, ..b },
            ),
        },
{
}

/// Takes the route that a request names out of it. Says which it is, and whether the body changed.
/// A request with a route that cannot be used, or with two, is left as it was. Asked again, the
/// request names no route any more, unless its metadata hid a second one.
pub fn take_codey_route_metadata(headers: &mut Vec<(String, String)>, body: &mut Json) -> (r: Result<
    (Option<String>, bool),
    Failure,
>)
    ensures
        match r {
            Ok((hint, changed)) => taken_hint(pairs_view(old(headers)@), old(body)@) == Ok::<
                TakenHint,
                FailureV,
            >(
                TakenHint {
                    headers: pairs_view(final(headers)@),
                    body: final(body)@,
                    hint: string_view(hint),
                    changed,
                },
            ),
            Err(e) => taken_hint(pairs_view(old(headers)@), old(body)@) == Err::<
                TakenHint,
                FailureV,
            >(e@) && final(body)@ == old(body)@ && *final(headers) == *old(headers),
        },
        r is Ok && metadata_is_plain(pairs_view(old(headers)@), old(body)@) ==> names_no_route(
            pairs_view(final(headers)@),
            final(body)@,
        ),
{
    let ghost before = pairs_view(headers@);
    let ghost plain = metadata_is_plain(before, body@);
    let (cleaned, mut hint) = match take_header_hints(headers) {
        Err(e) => {
            return Err(e);
        },
        Ok(x) => x,
    };
    let mut metadata = match body.get_object("client_metadata") {
        None => {
            *headers = cleaned;
            proof {
                lemma_lines_stay(before, before.len() as int);
                if plain {
                    lemma_settled_request(pairs_view(headers@), body@);
                }
            }
            return Ok((hint, false));
        },
        Some(v) => v.clone_json(),
    };
    let own = match take_route_hint_from_metadata_value(&mut metadata) {
        Err(e) => {
            return Err(e);
        },
        Ok(h) => h,
    };
    let direct = own.is_some();
    if let Err(e) = merge_route_hint(&mut hint, own) {
        return Err(e);
    }
    proof {
        lemma_changed_kept(
            HintedBody { metadata: metadata@, hint: string_view(hint), changed: direct },
        );
    }
    match take_nested_hint(&mut metadata, &mut hint) {
        Err(e) => Err(e),
        Ok(nested) => {
            let ghost left = metadata@;
            body.insert("client_metadata", metadata);
            *headers = cleaned;
            proof {
                lemma_lines_stay(before, before.len() as int);
                reveal_strlit("x-codex-turn-metadata");
                reveal_strlit("codey_route");
                assert("x-codex-turn-metadata"@.len() == 21);
                assert("codey_route"@.len() == 11);
                assert(left.get(ROUTE_METADATA_KEY@) is None);
                if plain {
                    lemma_settled_request(pairs_view(headers@), body@);
                }
            }
            Ok((hint, direct || nested))
        },
    }
}

/// Whether a request can go upstream as it was sent.
pub fn should_passthrough_native_responses(
    bridge: ProtocolBridge,
    requested_model: &str,
    upstream_model: &str,
    body_mutated: bool,
) -> (r: bool)
    ensures
        r == (bridge == ProtocolBridge::NativeResponses && requested_model@ == upstream_model@
            && !body_mutated),
{
    let native = match bridge {
        ProtocolBridge::NativeResponses => true,
        _ => false,
    };
    native && str_eq(requested_model, upstream_model) && !body_mutated
}

/// An id that the router itself gave to a response.
pub open spec fn is_own_response_id(id: Seq<char>) -> bool {
    starts_with(trim(id), "resp_codey_"@)
}

pub fn is_codey_synthetic_response_id(response_id: &str) -> (r: bool)
    ensures
        r == is_own_response_id(response_id@),
{
    has_prefix(trimmed(response_id).as_str(), "resp_codey_")
}

/// A request goes on from a response that the router made.
pub open spec fn continues_own_response(body: JsonV) -> bool {
    body.get_str("previous_response_id"@) matches Some(id) && is_own_response_id(id)
}

pub fn has_codey_synthetic_previous_response_id(body: &Json) -> (r: bool)
    ensures
        r == continues_own_response(body@),
{
    match body.get_str("previous_response_id") {
        Some(id) => is_codey_synthetic_response_id(id),
        None => false,
    }
}

/// The members of a request that the router may change.
pub open spec fn is_rewritten(name: Seq<char>) -> bool {
    name == "model"@ || name == "client_metadata"@ || name == "previous_response_id"@
}

fn member_is_rewritten(name: &str) -> (r: bool)
    ensures
        r == is_rewritten(name@),
{
    str_eq(name, "model") || str_eq(name, "client_metadata") || str_eq(
        name,
        "previous_response_id",
    )
}

/// The text of one member of an object.
pub open spec fn member_text(name: Seq<char>, value: Seq<char>) -> Seq<char> {
    json_text(JsonV::Str(name)) + ":"@ + value
}

/// The texts of members as they go upstream: those that the router may change have their new
/// value, or are gone; all others are as they were sent.
pub open spec fn rewritten_members(fields: Seq<(Seq<char>, Seq<char>)>, updated: JsonV) -> Seq<
    Seq<char>,
>
    decreases fields.len(),
{
    if fields.len() == 0 {
        Seq::empty()
    } else {
        let rest = rewritten_members(fields.drop_last(), updated);
        let (name, raw) = fields.last();
        if is_rewritten(name) {
            match updated.get(name) {
                Some(v) => rest.push(member_text(name, json_text(v))),
                None => rest,
            }
        } else {
            rest.push(member_text(name, raw))
        }
    }
}

pub open spec fn names_member(fields: Seq<(Seq<char>, Seq<char>)>, name: Seq<char>) -> bool {
    exists|i: int| 0 <= i < fields.len() && (#[trigger] fields[i]).0 == name
}

/// The members with one that was not sent, where the request now has it.
pub open spec fn with_new_member(
    members: Seq<Seq<char>>,
    fields: Seq<(Seq<char>, Seq<char>)>,
    updated: JsonV,
    name: Seq<char>,
) -> Seq<Seq<char>> {
    if names_member(fields, name) {
        members
    } else {
        match updated.get(name) {
            Some(v) => members.push(member_text(name, json_text(v))),
            None => members,
        }
    }
}

/// A request as it goes upstream: its members in the order in which they were sent, then those
/// that are new.
pub open spec fn rewritten_body(fields: Seq<(Seq<char>, Seq<char>)>, updated: JsonV) -> Seq<char> {
    let sent = rewritten_members(fields, updated);
    let a = with_new_member(sent, fields, updated, "model"@);
    let b = with_new_member(a, fields, updated, "client_metadata"@);
    let c = with_new_member(b, fields, updated, "previous_response_id"@);
    "{"@ + joined(c, ","@) + "}"@
}

fn fields_name(fields: &Vec<(String, String)>, name: &str) -> (r: bool)
    ensures
        r == names_member(pairs_view(fields@), name@),
{
    let mut i: usize = 0;
    while i < fields.len()
        invariant
            i <= fields.len(),
            forall|j: int| 0 <= j < i ==> (#[trigger] pairs_view(fields@)[j]).0 != name@,
        decreases fields.len() - i,
    {
        if str_eq(fields[i].0.as_str(), name) {
            proof {
                assert(pairs_view(fields@)[i as int].0 == name@);
            }
            return true;
        }
        i = i + 1;
    }
    false
}

/// The text of one member.
pub fn begin_encoded_json_field(name: &str, value: &str) -> (r: String)
    ensures
        r@ == member_text(name@, value@),
{
    cat3(Json::str(name).to_text().as_str(), ":", value)
}

fn add_new_member(
    members: &mut Vec<String>,
    fields: &Vec<(String, String)>,
    updated: &Json,
    name: &str,
)
    ensures
        texts(final(members)@) == with_new_member(
            texts(old(members)@),
            pairs_view(fields@),
            updated@,
            name@,
        ),
{
    if !fields_name(fields, name) {
        if let Some(v) = updated.get(name) {
            let member = begin_encoded_json_field(name, v.to_text().as_str());
            proof {
                texts_push(members@, member);
            }
            members.push(member);
        }
    }
}

/// Writes a request anew from the members that were sent, each with its text, and from the members
/// that the router may have changed.
pub fn rewrite_native_responses_encoded_body(fields: &Vec<(String, String)>, updated: &Json) -> (r:
    Result<String, Failure>)
    ensures
        string_result(r) == if updated@.is_object() {
            Ok::<Seq<char>, FailureV>(rewritten_body(pairs_view(fields@), updated@))
        } else {
            Err(FailureV::Text("Responses 上游请求必须是 JSON 对象"@))
        },
{
    if !updated.is_object() {
        return Err(fail("Responses 上游请求必须是 JSON 对象"));
    }
    let ghost all = pairs_view(fields@);
    let mut members: Vec<String> = Vec::new();
    let mut i: usize = 0;
    proof {
        assert(texts(members@) =~= Seq::<Seq<char>>::empty());
    }
    while i < fields.len()
        invariant
            i <= fields.len(),
            all == pairs_view(fields@),
            texts(members@) == rewritten_members(all.subrange(0, i as int), updated@),
        decreases fields.len() - i,
    {
        proof {
            assert(all.subrange(0, i + 1).drop_last() =~= all.subrange(0, i as int));
            assert(all.subrange(0, i + 1).last() == (fields@[i as int].0@, fields@[i as int].1@));
        }
        let name = fields[i].0.as_str();
        if member_is_rewritten(name) {
            if let Some(v) = updated.get(name) {
                let member = begin_encoded_json_field(name, v.to_text().as_str());
                proof {
                    texts_push(members@, member);
                }
                members.push(member);
            }
        } else {
            let member = begin_encoded_json_field(name, fields[i].1.as_str());
            proof {
                texts_push(members@, member);
            }
            members.push(member);
        }
        i = i + 1;
    }
    proof {
        assert(all.subrange(0, i as int) =~= all);
    }
    add_new_member(&mut members, fields, updated, "model");
    add_new_member(&mut members, fields, updated, "client_metadata");
    add_new_member(&mut members, fields, updated, "previous_response_id");
    Ok(cat3("{", join(&members, ",").as_str(), "}"))
}

/// A header line with this name belongs to one connection and goes no further.
pub open spec fn hop_by_hop(name: Seq<char>) -> bool {
    let n = lower(name);
    ||| n == "connection"@
    ||| n == "keep-alive"@
    ||| n == "proxy-connection"@
    ||| n == "proxy-authenticate"@
    ||| n == "te"@
    ||| n == "trailer"@
    ||| n == "transfer-encoding"@
    ||| n == "upgrade"@
    ||| n == "host"@
    ||| n == "content-length"@
}

pub fn is_hop_by_hop_header(name: &str) -> (r: bool)
    ensures
        r == hop_by_hop(name@),
{
    let n = to_lower(name);
    let n = n.as_str();
    str_eq(n, "connection") || str_eq(n, "keep-alive") || str_eq(n, "proxy-connection") || str_eq(
        n,
        "proxy-authenticate",
    ) || str_eq(n, "te") || str_eq(n, "trailer") || str_eq(n, "transfer-encoding") || str_eq(
        n,
        "upgrade",
    ) || str_eq(n, "host") || str_eq(n, "content-length")
}

/// A header line with this name says who the client is.
pub open spec fn client_identity(name: Seq<char>) -> bool {
    let n = lower(name);
    ||| n == "user-agent"@
    ||| n == "originator"@
    ||| n == "version"@
    ||| n == "openai-beta"@
    ||| n == "x-openai-originator"@
    ||| n == "x-openai-client-user-agent"@
    ||| n == "x-client-request-id"@
    ||| n == "thread-id"@
    ||| n == "thread_id"@
    ||| n == "session-id"@
    ||| n == "session_id"@
    ||| n == "prompt-cache-key"@
    ||| n == "prompt_cache_key"@
    ||| n == "x-codex-installation-id"@
    ||| n == "x-codex-window-id"@
    ||| n == "x-codex-parent-thread-id"@
    ||| n == "x-codex-beta-features"@
    ||| n == "x-codex-turn-state"@
    ||| n == "x-codex-routing-hint"@
    ||| n == "x-openai-subagent"@
    ||| n == "x-openai-memgen-request"@
    ||| n == "x-openai-internal-codex-responses-lite"@
    ||| n == "x-responsesapi-include-timing-metrics"@
    ||| starts_with(n, "x-stainless-"@)
}

pub fn is_codex_client_identity_header(name: &str) -> (r: bool)
    ensures
        r == client_identity(name@),
{
    let n = to_lower(name);
    let n = n.as_str();
    str_eq(n, "user-agent") || str_eq(n, "originator") || str_eq(n, "version") || str_eq(
        n,
        "openai-beta",
    ) || str_eq(n, "x-openai-originator") || str_eq(n, "x-openai-client-user-agent") || str_eq(
        n,
        "x-client-request-id",
    ) || str_eq(n, "thread-id") || str_eq(n, "thread_id") || str_eq(n, "session-id") || str_eq(
        n,
        "session_id",
    ) || str_eq(n, "prompt-cache-key") || str_eq(n, "prompt_cache_key") || str_eq(
        n,
        "x-codex-installation-id",
    ) || str_eq(n, "x-codex-window-id") || str_eq(n, "x-codex-parent-thread-id") || str_eq(
        n,
        "x-codex-beta-features",
    ) || str_eq(n, "x-codex-turn-state") || str_eq(n, "x-codex-routing-hint") || str_eq(
        n,
        "x-openai-subagent",
    ) || str_eq(n, "x-openai-memgen-request") || str_eq(
        n,
        "x-openai-internal-codex-responses-lite",
    ) || str_eq(n, "x-responsesapi-include-timing-metrics") || has_prefix(n, "x-stainless-")
}

/// A header line that never goes upstream: it carries the client's login or the router's own
/// matters, describes the body, or belongs to the connection.
pub open spec fn withheld(name: Seq<char>) -> bool {
    ||| same_ignoring_case(name, "authorization"@)
    ||| same_ignoring_case(name, "proxy-authorization"@)
    ||| same_ignoring_case(name, ROUTER_AUTH_HEADER@)
    ||| same_ignoring_case(name, ROUTE_METADATA_KEY@)
    ||| same_ignoring_case(name, "content-encoding"@)
    ||| same_ignoring_case(name, "content-type"@)
    ||| starts_with(lower(name), "x-codey-"@)
    ||| hop_by_hop(name)
}

/// A header line of the client goes upstream: to the official account all that are not withheld,
/// to any other route only what it accepts and who it is.
pub open spec fn forwarded(name: Seq<char>, official_account: bool) -> bool {
    !withheld(name) && (official_account || same_ignoring_case(name, "accept"@)
        || client_identity(name))
}

pub fn should_forward_incoming_header(name: &str, official_account: bool) -> (r: bool)
    ensures
        r == forwarded(name@, official_account),
{
    if eq_ignoring_case(name, "authorization") || eq_ignoring_case(name, "proxy-authorization")
        || eq_ignoring_case(name, ROUTER_AUTH_HEADER) || eq_ignoring_case(name, ROUTE_METADATA_KEY)
        || eq_ignoring_case(name, "content-encoding") || eq_ignoring_case(name, "content-type")
        || has_prefix(to_lower(name).as_str(), "x-codey-") || is_hop_by_hop_header(name) {
        return false;
    }
    official_account || eq_ignoring_case(name, "accept") || is_codex_client_identity_header(name)
}

/// The client's login and the router's own token never go upstream.
pub proof fn credentials_are_never_forwarded(name: Seq<char>, official_account: bool)
    requires
        same_ignoring_case(name, "authorization"@) || same_ignoring_case(
            name,
            "proxy-authorization"@,
        ) || same_ignoring_case(name, ROUTER_AUTH_HEADER@),
    ensures
        !forwarded(name, official_account),
{
}

/// The names that a list in a header line names.
pub open spec fn listed_names(pieces: Seq<Seq<char>>) -> Seq<Seq<char>>
    decreases pieces.len(),
{
    if pieces.len() == 0 {
        Seq::empty()
    } else {
        let rest = listed_names(pieces.drop_last());
        let name = trim(pieces.last());
        if name.len() > 0 {
            rest.push(lower(name))
        } else {
            rest
        }
    }
}

/// The header lines that the client says belong to its connection.
pub open spec fn connection_names(headers: Seq<(Seq<char>, Seq<char>)>) -> Seq<Seq<char>>
    decreases headers.len(),
{
    if headers.len() == 0 {
        Seq::empty()
    } else {
        let rest = connection_names(headers.drop_last());
        let (name, value) = headers.last();
        if same_ignoring_case(name, "connection"@) || same_ignoring_case(
            name,
            "proxy-connection"@,
        ) {
            rest + listed_names(split(value, Sep::Char(',')))
        } else {
            rest
        }
    }
}

fn names_in_list(value: &str) -> (r: Vec<String>)
    ensures
        texts(r@) == listed_names(split(value@, Sep::Char(','))),
{
    let pieces = split_text(value, Sep::Char(','));
    let ghost all = texts(pieces@);
    let mut out: Vec<String> = Vec::new();
    let mut i: usize = 0;
    proof {
        assert(texts(out@) =~= listed_names(all.subrange(0, 0)));
    }
    while i < pieces.len()
        invariant
            i <= pieces.len(),
            all == texts(pieces@),
            texts(out@) == listed_names(all.subrange(0, i as int)),
        decreases pieces.len() - i,
    {
        proof {
            assert(all.subrange(0, i + 1).drop_last() =~= all.subrange(0, i as int));
            assert(all.subrange(0, i + 1).last() == pieces@[i as int]@);
        }
        let name = trimmed(pieces[i].as_str());
        if !name.as_str().is_empty() {
            let n = to_lower(name.as_str());
            proof {
                texts_push(out@, n);
            }
            out.push(n);
        }
        i = i + 1;
    }
    proof {
        assert(all.subrange(0, i as int) =~= all);
    }
    out
}

/// The header lines that the client says belong to its connection.
pub fn connection_scoped_header_names(headers: &Vec<(String, String)>) -> (r: Vec<String>)
    ensures
        texts(r@) == connection_names(pairs_view(headers@)),
{
    let ghost all = pairs_view(headers@);
    let mut out: Vec<String> = Vec::new();
    let mut i: usize = 0;
    proof {
        assert(texts(out@) =~= connection_names(all.subrange(0, 0)));
    }
    while i < headers.len()
        invariant
            i <= headers.len(),
            all == pairs_view(headers@),
            texts(out@) == connection_names(all.subrange(0, i as int)),
        decreases headers.len() - i,
    {
        proof {
            assert(all.subrange(0, i + 1).drop_last() =~= all.subrange(0, i as int));
            assert(all.subrange(0, i + 1).last() == (headers@[i as int].0@, headers@[i as int].1@));
        }
        let name = headers[i].0.as_str();
        if eq_ignoring_case(name, "connection") || eq_ignoring_case(name, "proxy-connection") {
            let mut more = names_in_list(headers[i].1.as_str());
            let ghost before = out@;
            let ghost added = more@;
            out.append(&mut more);
            proof {
                assert(texts(out@) =~= texts(before) + texts(added));
            }
        }
        i = i + 1;
    }
    proof {
        assert(all.subrange(0, i as int) =~= all);
    }
    out
}

/// The header lines of a socket's handshake that count for its requests.
pub open spec fn socket_headers(
    headers: Seq<(Seq<char>, Seq<char>)>,
    scoped: Seq<Seq<char>>,
) -> Seq<(Seq<char>, Seq<char>)>
    decreases headers.len(),
{
    if headers.len() == 0 {
        Seq::empty()
    } else {
        let rest = socket_headers(headers.drop_last(), scoped);
        let name = headers.last().0;
        if hop_by_hop(name) || starts_with(lower(name), "sec-websocket-"@) || scoped.contains(
            lower(name),
        ) {
            rest
        } else {
            rest.push(headers.last())
        }
    }
}

/// The header lines of a socket's handshake that count for its requests.
pub fn websocket_forward_headers(headers: &Vec<(String, String)>) -> (r: Vec<(String, String)>)
    ensures
        pairs_view(r@) == socket_headers(
            pairs_view(headers@),
            connection_names(pairs_view(headers@)),
        ),
{
    let scoped = connection_scoped_header_names(headers);
    let ghost all = pairs_view(headers@);
    let ghost names = connection_names(all);
    let mut out: Vec<(String, String)> = Vec::new();
    let mut i: usize = 0;
    proof {
        assert(pairs_view(out@) =~= socket_headers(all.subrange(0, 0), names));
    }
    while i < headers.len()
        invariant
            i <= headers.len(),
            all == pairs_view(headers@),
            texts(scoped@) == names,
            pairs_view(out@) == socket_headers(all.subrange(0, i as int), names),
        decreases headers.len() - i,
    {
        proof {
            assert(all.subrange(0, i + 1).drop_last() =~= all.subrange(0, i as int));
            assert(all.subrange(0, i + 1).last() == (headers@[i as int].0@, headers@[i as int].1@));
        }
        let name = headers[i].0.as_str();
        let low = to_lower(name);
        if !is_hop_by_hop_header(name) && !has_prefix(low.as_str(), "sec-websocket-") && !list_has(
            &scoped,
            low.as_str(),
        ) {
            let ghost before = out@;
            out.push((headers[i].0.clone(), headers[i].1.clone()));
            proof {
                assert(pairs_view(out@) =~= pairs_view(before).push(all[i as int]));
            }
        }
        i = i + 1;
    }
    proof {
        assert(all.subrange(0, i as int) =~= all);
    }
    out
}

/// The form of a version 4 UUID with given random bytes: the bits of the version and of the variant
/// are set.
pub open spec fn uuid_form(bytes: Seq<u8>) -> Seq<char> {
    hyphenated(
        bytes.update(6, (64 + bytes[6] as int % 16) as u8).update(
            8,
            (128 + bytes[8] as int % 64) as u8,
        ),
    )
}

/// `uuid::Builder::from_random_bytes`, in the hyphenated form: the given bytes with the bits of the
/// version and of the variant set.
#[verifier::external_body]
fn uuid_from_bytes(bytes: &[u8]) -> (r: String)
    requires
        bytes@.len() == 16,
    ensures
        r@ == uuid_form(bytes@),
{
    let mut seed = [0u8; 16];
    seed.copy_from_slice(bytes);
    uuid::Builder::from_random_bytes(seed).into_uuid().to_string()
}

/// Who pays for a request: an account, a login, or nobody that is known.
pub open spec fn payer(headers: Seq<(Seq<char>, Seq<char>)>) -> (Seq<char>, Seq<char>) {
    match header_value(headers, CHATGPT_ACCOUNT_ID_HEADER@) {
        Some(v) => ("account"@, v),
        None => match header_value(headers, "authorization"@) {
            Some(v) => ("authorization"@, v),
            None => ("anonymous"@, Seq::empty()),
        },
    }
}

/// What a cache key is made from. The payer goes in as a digest only.
pub open spec fn cache_key_bytes(
    route_id: Seq<char>,
    upstream_url: Seq<char>,
    upstream_model: Seq<char>,
    headers: Seq<(Seq<char>, Seq<char>)>,
) -> Seq<u8> {
    with_length(encode_utf8("codey-prompt-cache-v1"@)) + with_length(encode_utf8(route_id))
        + with_length(encode_utf8(upstream_url)) + with_length(encode_utf8(upstream_model))
        + with_length(encode_utf8(payer(headers).0)) + with_length(
        sha256_of(encode_utf8(payer(headers).1)),
    )
}

/// The cache key of a route, a model and a payer.
pub open spec fn cache_key(
    route_id: Seq<char>,
    upstream_url: Seq<char>,
    upstream_model: Seq<char>,
    headers: Seq<(Seq<char>, Seq<char>)>,
) -> Seq<char> {
    uuid_form(
        sha256_of(cache_key_bytes(route_id, upstream_url, upstream_model, headers)).subrange(0, 16),
    )
}

/// The cache key that a digest makes: its first sixteen bytes, in the form of a UUID.
pub fn cache_key_of(digest: &Fingerprint) -> (r: String)
    requires
        digest@.len() == 32,
    ensures
        r@ == uuid_form(digest@.subrange(0, 16)),
{
    let mut seed: Vec<u8> = Vec::new();
    let mut i: usize = 0;
    while i < 16
        invariant
            i <= 16,
            digest@.len() == 32,
            seed@ == digest@.subrange(0, i as int),
        decreases 16 - i,
    {
        seed.push(digest.bytes[i]);
        i = i + 1;
        proof {
            assert(seed@ =~= digest@.subrange(0, i as int));
        }
    }
    uuid_from_bytes(seed.as_slice())
}

/// Makes the cache key of a route, a model and a payer.
pub fn stable_prompt_cache_key(
    route_id: &str,
    upstream_url: &str,
    upstream_model: &str,
    headers: &Vec<(String, String)>,
) -> (r: String)
    ensures
        r@ == cache_key(route_id@, upstream_url@, upstream_model@, pairs_view(headers@)),
{
    let (kind, identity) = match incoming_header(headers, CHATGPT_ACCOUNT_ID_HEADER) {
        Some(v) => ("account", v),
        None => match incoming_header(headers, "authorization") {
            Some(v) => ("authorization", v),
            None => ("anonymous", ""),
        },
    };
    proof {
        reveal_strlit("");
        assert(""@ =~= Seq::<char>::empty());
        assert((kind@, identity@) == payer(pairs_view(headers@)));
    }
    let mut bytes: Vec<u8> = Vec::new();
    add_text(&mut bytes, "codey-prompt-cache-v1");
    add_text(&mut bytes, route_id);
    add_text(&mut bytes, upstream_url);
    add_text(&mut bytes, upstream_model);
    add_text(&mut bytes, kind);
    let mut identity_bytes: Vec<u8> = Vec::new();
    add_all(&mut identity_bytes, identity.as_bytes());
    proof {
        assert(identity_bytes@ =~= encode_utf8(identity@));
    }
    let masked = sha256(&identity_bytes);
    update_length_prefixed_digest(&mut bytes, masked.bytes.as_slice());
    proof {
        assert(bytes@ =~= cache_key_bytes(
            route_id@,
            upstream_url@,
            upstream_model@,
            pairs_view(headers@),
        ));
    }
    let digest = sha256(&bytes);
    cache_key_of(&digest)
}

/// A request carries a cache key of its own.
pub open spec fn has_cache_key(headers: Seq<(Seq<char>, Seq<char>)>, body: JsonV) -> bool {
    ||| header_value(headers, PROMPT_CACHE_KEY_HEADER@) is Some
    ||| header_value(headers, PROMPT_CACHE_KEY_COMPAT_HEADER@) is Some
    ||| body.has("prompt_cache_key"@)
}

/// The header lines of a request that goes over a bridge: one to a native route that carries no
/// cache key is given one.
pub open spec fn keyed_headers(
    headers: Seq<(Seq<char>, Seq<char>)>,
    bridge: ProtocolBridge,
    body: JsonV,
    route_id: Seq<char>,
    upstream_url: Seq<char>,
    upstream_model: Seq<char>,
) -> Seq<(Seq<char>, Seq<char>)> {
    if bridge == ProtocolBridge::NativeResponses && !has_cache_key(headers, body) {
        headers.push(
            (
                PROMPT_CACHE_KEY_HEADER@,
                cache_key(route_id, upstream_url, upstream_model, headers),
            ),
        )
    } else {
        headers
    }
}

/// Gives a request to a native route a cache key, unless it carries one. Requests over the other
/// bridges stay as they are.
pub fn ensure_prompt_cache_key(
    headers: &mut Vec<(String, String)>,
    bridge: ProtocolBridge,
    body: &Json,
    route_id: &str,
    upstream_url: &str,
    upstream_model: &str,
)
    ensures
        pairs_view(final(headers)@) == keyed_headers(
            pairs_view(old(headers)@),
            bridge,
            body@,
            route_id@,
            upstream_url@,
            upstream_model@,
        ),
{
    let native = match bridge {
        ProtocolBridge::NativeResponses => true,
        _ => false,
    };
    if native {
        let _ = ensure_native_prompt_cache_key(
            headers,
            body,
            route_id,
            upstream_url,
            upstream_model,
        );
    }
}

/// Gives a request a cache key, unless it carries one.
pub fn ensure_native_prompt_cache_key(
    headers: &mut Vec<(String, String)>,
    body: &Json,
    route_id: &str,
    upstream_url: &str,
    upstream_model: &str,
) -> (r: bool)
    ensures
        r == !has_cache_key(pairs_view(old(headers)@), body@),
        pairs_view(final(headers)@) == if r {
            pairs_view(old(headers)@).push(
                (
                    PROMPT_CACHE_KEY_HEADER@,
                    cache_key(
                        route_id@,
                        upstream_url@,
                        upstream_model@,
                        pairs_view(old(headers)@),
                    ),
                ),
            )
        } else {
            pairs_view(old(headers)@)
        },
{
    if incoming_header(headers, PROMPT_CACHE_KEY_HEADER).is_some() || incoming_header(
        headers,
        PROMPT_CACHE_KEY_COMPAT_HEADER,
    ).is_some() || body.has("prompt_cache_key") {
        return false;
    }
    let k = stable_prompt_cache_key(route_id, upstream_url, upstream_model, headers);
    let ghost before = headers@;
    headers.push((PROMPT_CACHE_KEY_HEADER.to_owned(), k));
    proof {
        assert(pairs_view(headers@) =~= pairs_view(before).push(
            (PROMPT_CACHE_KEY_HEADER@, k@),
        ));
    }
    true
}

/// A part of a routing hint that names a model.
pub open spec fn names_model(part: Seq<char>) -> bool {
    starts_with(trim(part), "model="@)
}

/// The parts of a routing hint, with the model that goes upstream.
pub open spec fn aligned_parts(parts: Seq<Seq<char>>, upstream_model: Seq<char>) -> Seq<Seq<char>>
    decreases parts.len(),
{
    if parts.len() == 0 {
        Seq::empty()
    } else {
        aligned_parts(parts.drop_last(), upstream_model).push(
            if names_model(parts.last()) {
                "model="@ + upstream_model
            } else {
                parts.last()
            },
        )
    }
}

/// A routing hint that names the model which goes upstream.
pub open spec fn aligned_hint(value: Seq<char>, upstream_model: Seq<char>) -> Seq<char> {
    joined(aligned_parts(split(value, Sep::Char(';')), upstream_model), ";"@)
}

/// Makes a routing hint name the model which goes upstream.
pub fn align_routing_hint(value: &str, upstream_model: &str) -> (r: String)
    ensures
        r@ == aligned_hint(value@, upstream_model@),
{
    let parts = split_text(value, Sep::Char(';'));
    let ghost all = texts(parts@);
    let mut out: Vec<String> = Vec::new();
    let mut i: usize = 0;
    proof {
        assert(texts(out@) =~= aligned_parts(all.subrange(0, 0), upstream_model@));
    }
    while i < parts.len()
        invariant
            i <= parts.len(),
            all == texts(parts@),
            texts(out@) == aligned_parts(all.subrange(0, i as int), upstream_model@),
        decreases parts.len() - i,
    {
        proof {
            assert(all.subrange(0, i + 1).drop_last() =~= all.subrange(0, i as int));
            assert(all.subrange(0, i + 1).last() == parts@[i as int]@);
        }
        let part = if has_prefix(trimmed(parts[i].as_str()).as_str(), "model=") {
            cat2("model=", upstream_model)
        } else {
            parts[i].clone()
        };
        proof {
            texts_push(out@, part);
        }
        out.push(part);
        i = i + 1;
    }
    proof {
        assert(all.subrange(0, i as int) =~= all);
    }
    join(&out, ";")
}

/// A text that can be read from the value of a header line: visible ASCII characters, spaces and
/// tabs.
pub open spec fn is_readable(value: Seq<char>) -> bool {
    forall|i: int| 0 <= i < value.len() ==> (' ' <= #[trigger] value[i] <= '~' || value[i] == '\t')
}

fn readable(value: &str) -> (r: bool)
    ensures
        r == is_readable(value@),
{
    let len = value.unicode_len();
    let mut i: usize = 0;
    while i < len
        invariant
            i <= len,
            len == value@.len(),
            is_readable(value@.subrange(0, i as int)),
        decreases len - i,
    {
        let c = value.get_char(i);
        if !((' ' <= c && c <= '~') || c == '\t') {
            return false;
        }
        i = i + 1;
        proof {
            assert forall|j: int| 0 <= j < i implies (' ' <= #[trigger] value@.subrange(
                0,
                i as int,
            )[j] <= '~' || value@.subrange(0, i as int)[j] == '\t') by {
                if j < i - 1 {
                    assert(value@.subrange(0, i - 1)[j] == value@[j]);
                }
            }
        }
    }
    proof {
        assert(value@.subrange(0, i as int) =~= value@);
    }
    true
}

/// The header lines with a routing hint that names the model which goes upstream. A hint that
/// cannot be read, or cannot be sent with that model, is left out.
pub open spec fn aligned_headers(
    headers: Seq<(Seq<char>, Seq<char>)>,
    upstream_model: Seq<char>,
) -> Seq<(Seq<char>, Seq<char>)> {
    match header_value(headers, ROUTING_HINT_HEADER@) {
        None => headers,
        Some(value) => {
            let rewritten = aligned_hint(value, upstream_model);
            if !is_readable(value) {
                unset_header(headers, ROUTING_HINT_HEADER@)
            } else if rewritten == value {
                headers
            } else if sendable(rewritten) {
                set_header(headers, ROUTING_HINT_HEADER@, rewritten)
            } else {
                unset_header(headers, ROUTING_HINT_HEADER@)
            }
        },
    }
}

/// Makes the routing hint among the header lines name the model which goes upstream.
pub fn align_routing_hint_model(headers: &mut Vec<(String, String)>, upstream_model: &str)
    ensures
        pairs_view(final(headers)@) == aligned_headers(
            pairs_view(old(headers)@),
            upstream_model@,
        ),
{
    let value = match incoming_header(headers, ROUTING_HINT_HEADER) {
        Some(value) => value.to_owned(),
        None => {
            return;
        },
    };
    let rewritten = align_routing_hint(value.as_str(), upstream_model);
    let kept = readable(value.as_str());
    if kept && str_eq(rewritten.as_str(), value.as_str()) {
        return;
    }
    let mut rest = without_header(headers, ROUTING_HINT_HEADER);
    if kept && header_value_is_valid(rewritten.as_str()) {
        let ghost before = rest@;
        let ghost line = (ROUTING_HINT_HEADER@, rewritten@);
        rest.push((ROUTING_HINT_HEADER.to_owned(), rewritten));
        proof {
            assert(pairs_view(rest@) =~= pairs_view(before).push(line));
        }
    }
    *headers = rest;
}

proof fn lemma_aligned_parts(parts: Seq<Seq<char>>, upstream_model: Seq<char>)
    ensures
        aligned_parts(parts, upstream_model).len() == parts.len(),
        forall|i: int|
            0 <= i < parts.len() ==> #[trigger] aligned_parts(parts, upstream_model)[i] == (
            if names_model(parts[i]) {
                "model="@ + upstream_model
            } else {
                parts[i]
            }),
    decreases parts.len(),
{
    if parts.len() > 0 {
        lemma_aligned_parts(parts.drop_last(), upstream_model);
    }
}

/// A routing hint that was aligned has as many parts as before. Those that name a model name the
/// one which goes upstream; the others are as they were.
pub proof fn an_aligned_hint_names_the_model(value: Seq<char>, upstream_model: Seq<char>, i: int)
    requires
        lacks(upstream_model, ';'),
        0 <= i < split(value, Sep::Char(';')).len(),
    ensures
        ({
            let parts = split(value, Sep::Char(';'));
            let aligned = split(aligned_hint(value, upstream_model), Sep::Char(';'));
            aligned.len() == parts.len() && aligned[i] == if names_model(parts[i]) {
                "model="@ + upstream_model
            } else {
                parts[i]
            }
        }),
{
    let parts = split(value, Sep::Char(';'));
    let aligned = aligned_parts(parts, upstream_model);
    split_pieces_lack(value, ';');
    lemma_aligned_parts(parts, upstream_model);
    reveal_strlit("model=");
    reveal_strlit(";");
    assert(";"@ =~= seq![';']);
    assert(lacks("model="@, ';'));
    let named = "model="@ + upstream_model;
    assert forall|k: int| 0 <= k < named.len() implies #[trigger] named[k] != ';' by {
        if k < 6 {
            assert("model="@[k] != ';');
        } else {
            assert(upstream_model[k - 6] != ';');
        }
    }
    assert forall|k: int| 0 <= k < aligned.len() implies lacks(#[trigger] aligned[k], ';') by {
        assert(lacks(parts[k], ';'));
    }
    split_undoes_join(aligned, ';');
}

/// The login of the client itself: not the one for the router.
pub open spec fn client_authorization(
    headers: Seq<(Seq<char>, Seq<char>)>,
    router_bearer_token: Seq<char>,
) -> Option<Seq<char>> {
    match header_value(headers, "authorization"@) {
        None => None,
        Some(v) => if trim(v) == router_bearer_token {
            None
        } else {
            Some(v)
        },
    }
}

pub fn incoming_openai_authorization<'a>(
    headers: &'a Vec<(String, String)>,
    router_bearer_token: &str,
) -> (r: Option<&'a str>)
    ensures
        text_view(r) == client_authorization(pairs_view(headers@), router_bearer_token@),
{
    match incoming_header(headers, "authorization") {
        None => None,
        Some(v) => if str_eq(trimmed(v).as_str(), router_bearer_token) {
            None
        } else {
            Some(v)
        },
    }
}

/// Some header line carries the router's token, by itself or as a bearer token.
pub open spec fn carries_token(
    headers: Seq<(Seq<char>, Seq<char>)>,
    token: Seq<char>,
    bearer_token: Seq<char>,
) -> bool {
    exists|i: int|
        0 <= i < headers.len() && {
            let h = #[trigger] headers[i];
            ||| same_ignoring_case(h.0, ROUTER_AUTH_HEADER@) && trim(h.1) == token
            ||| same_ignoring_case(h.0, "authorization"@) && trim(h.1) == bearer_token
        }
}

/// Whether a request carries the router's token.
pub fn authorized(headers: &Vec<(String, String)>, token: &str, bearer_token: &str) -> (r: bool)
    ensures
        r == carries_token(pairs_view(headers@), token@, bearer_token@),
{
    let ghost all = pairs_view(headers@);
    let mut i: usize = 0;
    while i < headers.len()
        invariant
            i <= headers.len(),
            all == pairs_view(headers@),
            forall|j: int|
                0 <= j < i ==> {
                    let h = #[trigger] all[j];
                    &&& !(same_ignoring_case(h.0, ROUTER_AUTH_HEADER@) && trim(h.1) == token@)
                    &&& !(same_ignoring_case(h.0, "authorization"@) && trim(h.1) == bearer_token@)
                },
        decreases headers.len() - i,
    {
        let name = headers[i].0.as_str();
        let value = trimmed(headers[i].1.as_str());
        proof {
            assert(all[i as int] == (headers@[i as int].0@, headers@[i as int].1@));
        }
        if (eq_ignoring_case(name, ROUTER_AUTH_HEADER) && str_eq(value.as_str(), token)) || (
        eq_ignoring_case(name, "authorization") && str_eq(value.as_str(), bearer_token)) {
            return true;
        }
        i = i + 1;
    }
    false
}

/// A text that can be the value of a header line: its bytes are visible, spaces, tabs or beyond
/// ASCII.
pub open spec fn sendable(value: Seq<char>) -> bool {
    forall|i: int|
        0 <= i < encode_utf8(value).len() ==> {
            let b = #[trigger] encode_utf8(value)[i];
            (b >= 32 && b != 127) || b == 9
        }
}

/// `reqwest::header::HeaderValue::from_str`: succeeds where no byte of the value is a control
/// character, apart from the tab.
#[verifier::external_body]
pub(crate) fn header_value_is_valid(value: &str) -> (r: bool)
    ensures
        r == sendable(value@),
{
    reqwest::header::HeaderValue::from_str(value).is_ok()
}

/// A character that can stand in the name of a header line.
pub open spec fn is_name_char(c: char) -> bool {
    ||| is_alnum(c)
    ||| c == '!'
    ||| '#' <= c <= '\''
    ||| c == '*'
    ||| c == '+'
    ||| c == '-'
    ||| c == '.'
    ||| '^' <= c <= '`'
    ||| c == '|'
    ||| c == '~'
}

/// The name of a header line in the form in which it is sent, where it is one.
pub open spec fn header_name_form(name: Seq<char>) -> Option<Seq<char>> {
    if 0 < name.len() <= 65_535 && forall|i: int|
        0 <= i < name.len() ==> is_name_char(#[trigger] name[i]) {
        Some(lower(name))
    } else {
        None
    }
}

/// `reqwest::header::HeaderName::from_bytes`: the name in lower case, where it is not empty, its
/// characters can all stand in a name, and it is not too long.
#[verifier::external_body]
fn header_name(name: &str) -> (r: Option<String>)
    ensures
        string_view(r) == header_name_form(name@),
{
    match reqwest::header::HeaderName::from_bytes(name.as_bytes()) {
        Ok(n) => Some(n.as_str().to_string()),
        Err(_) => None,
    }
}

/// The header lines with one set, at the end, in the place of those of that name.
pub open spec fn set_header(
    headers: Seq<(Seq<char>, Seq<char>)>,
    name: Seq<char>,
    value: Seq<char>,
) -> Seq<(Seq<char>, Seq<char>)> {
    unset_header(headers, name).push((name, value))
}

/// The header lines without those of a name.
pub open spec fn unset_header(headers: Seq<(Seq<char>, Seq<char>)>, name: Seq<char>) -> Seq<
    (Seq<char>, Seq<char>),
>
    decreases headers.len(),
{
    if headers.len() == 0 {
        Seq::empty()
    } else {
        let rest = unset_header(headers.drop_last(), name);
        if same_ignoring_case(headers.last().0, name) {
            rest
        } else {
            rest.push(headers.last())
        }
    }
}

fn without_header(headers: &Vec<(String, String)>, name: &str) -> (r: Vec<(String, String)>)
    ensures
        pairs_view(r@) == unset_header(pairs_view(headers@), name@),
{
    let ghost all = pairs_view(headers@);
    let mut out: Vec<(String, String)> = Vec::new();
    let mut i: usize = 0;
    proof {
        assert(pairs_view(out@) =~= unset_header(all.subrange(0, 0), name@));
    }
    while i < headers.len()
        invariant
            i <= headers.len(),
            all == pairs_view(headers@),
            pairs_view(out@) == unset_header(all.subrange(0, i as int), name@),
        decreases headers.len() - i,
    {
        proof {
            assert(all.subrange(0, i + 1).drop_last() =~= all.subrange(0, i as int));
            assert(all.subrange(0, i + 1).last() == (headers@[i as int].0@, headers@[i as int].1@));
        }
        if !eq_ignoring_case(headers[i].0.as_str(), name) {
            let ghost before = out@;
            out.push((headers[i].0.clone(), headers[i].1.clone()));
            proof {
                assert(pairs_view(out@) =~= pairs_view(before).push(all[i as int]));
            }
        }
        i = i + 1;
    }
    proof {
        assert(all.subrange(0, i as int) =~= all);
    }
    out
}

fn replace_header(headers: &mut Vec<(String, String)>, name: &str, value: &str)
    ensures
        pairs_view(final(headers)@) == set_header(pairs_view(old(headers)@), name@, value@),
{
    let mut out = without_header(headers, name);
    let ghost before = out@;
    out.push((name.to_owned(), value.to_owned()));
    proof {
        assert(pairs_view(out@) =~= pairs_view(before).push((name@, value@)));
    }
    *headers = out;
}

/// The header lines of the client that go upstream.
pub open spec fn forwarded_headers(
    headers: Seq<(Seq<char>, Seq<char>)>,
    official_account: bool,
) -> Seq<(Seq<char>, Seq<char>)>
    decreases headers.len(),
{
    if headers.len() == 0 {
        Seq::empty()
    } else {
        let rest = forwarded_headers(headers.drop_last(), official_account);
        let (name, value) = headers.last();
        match header_name_form(name) {
            Some(n) => if forwarded(name, official_account) && sendable(value) {
                set_header(rest, n, value)
            } else {
                rest
            },
            None => rest,
        }
    }
}

/// Header lines put over others.
pub open spec fn overlaid(
    under: Seq<(Seq<char>, Seq<char>)>,
    over: Seq<(Seq<char>, Seq<char>)>,
) -> Seq<(Seq<char>, Seq<char>)>
    decreases over.len(),
{
    if over.len() == 0 {
        under
    } else {
        set_header(overlaid(under, over.drop_last()), over.last().0, over.last().1)
    }
}

/// The login for the official account.
#[derive(Debug)]
pub struct OfficialAuth {
    pub authorization: String,
    pub account_id: Option<String>,
}

/// Why a request got no header lines for its upstream.
#[derive(Debug)]
pub enum HeaderFault {
    /// The route's own header lines are wrong, in words.
    Configuration(String),
    AuthMissing,
    AuthInvalid,
}

pub enum HeaderFaultV {
    Configuration(Seq<char>),
    AuthMissing,
    AuthInvalid,
}

impl View for HeaderFault {
    type V = HeaderFaultV;

    open spec fn view(&self) -> HeaderFaultV {
        match self {
            HeaderFault::Configuration(words) => HeaderFaultV::Configuration(words@),
            HeaderFault::AuthMissing => HeaderFaultV::AuthMissing,
            HeaderFault::AuthInvalid => HeaderFaultV::AuthInvalid,
        }
    }
}

/// The status with which the client is told.
pub open spec fn fault_status(fault: HeaderFaultV) -> u16 {
    match fault {
        HeaderFaultV::Configuration(_) => 502,
        HeaderFaultV::AuthMissing => 401,
        HeaderFaultV::AuthInvalid => 401,
    }
}

pub open spec fn fault_code(fault: HeaderFaultV) -> Seq<char> {
    match fault {
        HeaderFaultV::Configuration(_) => "route_configuration_error"@,
        HeaderFaultV::AuthMissing => "openai_auth_missing"@,
        HeaderFaultV::AuthInvalid => "openai_auth_invalid"@,
    }
}

pub open spec fn fault_words(fault: HeaderFaultV) -> Seq<char> {
    match fault {
        HeaderFaultV::Configuration(words) => words,
        HeaderFaultV::AuthMissing => "官方账号线路缺少 Codex OpenAI 登录态，请重新登录后重试"@,
        HeaderFaultV::AuthInvalid => "官方账号线路的 Codex OpenAI 登录态无效，请重新登录后重试"@,
    }
}

impl HeaderFault {
    pub fn status(&self) -> (r: u16)
        ensures
            r == fault_status(self@),
    {
        match self {
            HeaderFault::Configuration(_) => 502,
            HeaderFault::AuthMissing => 401,
            HeaderFault::AuthInvalid => 401,
        }
    }

    pub fn code(&self) -> (r: &'static str)
        ensures
            r@ == fault_code(self@),
    {
        match self {
            HeaderFault::Configuration(_) => "route_configuration_error",
            HeaderFault::AuthMissing => "openai_auth_missing",
            HeaderFault::AuthInvalid => "openai_auth_invalid",
        }
    }

    pub fn words(&self) -> (r: String)
        ensures
            r@ == fault_words(self@),
    {
        match self {
            HeaderFault::Configuration(words) => words.clone(),
            HeaderFault::AuthMissing => "官方账号线路缺少 Codex OpenAI 登录态，请重新登录后重试".to_owned(),
            HeaderFault::AuthInvalid => "官方账号线路的 Codex OpenAI 登录态无效，请重新登录后重试".to_owned(),
        }
    }
}

/// The view of a login.
pub open spec fn auth_view(auth: Option<OfficialAuth>) -> Option<(Seq<char>, Option<Seq<char>>)> {
    match auth {
        Some(a) => Some((a.authorization@, string_view(a.account_id))),
        None => None,
    }
}

/// The header lines with a login. Those of the account that the client named are dropped.
pub open spec fn with_login(
    headers: Seq<(Seq<char>, Seq<char>)>,
    authorization: Seq<char>,
    account_id: Option<Seq<char>>,
) -> Seq<(Seq<char>, Seq<char>)> {
    let cleared = unset_header(
        set_header(headers, "authorization"@, authorization),
        CHATGPT_ACCOUNT_ID_HEADER@,
    );
    match account_id {
        Some(id) => if sendable(id) {
            set_header(cleared, CHATGPT_ACCOUNT_ID_HEADER@, id)
        } else {
            cleared
        },
        None => cleared,
    }
}

/// The header lines of a request to an upstream: the client's own as far as they go there, the
/// route's over them, the request's id, and for an official account its login.
pub open spec fn upstream_headers(
    client: Seq<(Seq<char>, Seq<char>)>,
    route: Result<Seq<(Seq<char>, Seq<char>)>, Seq<char>>,
    official_account: bool,
    request_id: Option<Seq<char>>,
    auth: Option<(Seq<char>, Option<Seq<char>>)>,
) -> Result<Seq<(Seq<char>, Seq<char>)>, HeaderFaultV> {
    match route {
        Err(words) => Err(HeaderFaultV::Configuration(words)),
        Ok(own) => {
            let merged = overlaid(forwarded_headers(client, official_account), own);
            let numbered = match request_id {
                Some(id) => if sendable(id) {
                    set_header(merged, "x-codey-request-id"@, id)
                } else {
                    merged
                },
                None => merged,
            };
            if !official_account {
                Ok(numbered)
            } else {
                match auth {
                    None => Err(HeaderFaultV::AuthMissing),
                    Some((authorization, account_id)) => if sendable(authorization) {
                        Ok(with_login(numbered, authorization, account_id))
                    } else {
                        Err(HeaderFaultV::AuthInvalid)
                    },
                }
            }
        },
    }
}

fn forward_headers(headers: &Vec<(String, String)>, official_account: bool) -> (r: Vec<
    (String, String),
>)
    ensures
        pairs_view(r@) == forwarded_headers(pairs_view(headers@), official_account),
{
    let ghost all = pairs_view(headers@);
    let mut out: Vec<(String, String)> = Vec::new();
    let mut i: usize = 0;
    proof {
        assert(pairs_view(out@) =~= forwarded_headers(all.subrange(0, 0), official_account));
    }
    while i < headers.len()
        invariant
            i <= headers.len(),
            all == pairs_view(headers@),
            pairs_view(out@) == forwarded_headers(all.subrange(0, i as int), official_account),
        decreases headers.len() - i,
    {
        proof {
            assert(all.subrange(0, i + 1).drop_last() =~= all.subrange(0, i as int));
            assert(all.subrange(0, i + 1).last() == (headers@[i as int].0@, headers@[i as int].1@));
        }
        if let Some(name) = header_name(headers[i].0.as_str()) {
            if should_forward_incoming_header(headers[i].0.as_str(), official_account)
                && header_value_is_valid(headers[i].1.as_str()) {
                replace_header(&mut out, name.as_str(), headers[i].1.as_str());
            }
        }
        i = i + 1;
    }
    proof {
        assert(all.subrange(0, i as int) =~= all);
    }
    out
}

fn overlay(headers: &mut Vec<(String, String)>, over: &Vec<(String, String)>)
    ensures
        pairs_view(final(headers)@) == overlaid(pairs_view(old(headers)@), pairs_view(over@)),
{
    let ghost under = pairs_view(headers@);
    let ghost all = pairs_view(over@);
    let mut i: usize = 0;
    while i < over.len()
        invariant
            i <= over.len(),
            all == pairs_view(over@),
            pairs_view(headers@) == overlaid(under, all.subrange(0, i as int)),
        decreases over.len() - i,
    {
        proof {
            assert(all.subrange(0, i + 1).drop_last() =~= all.subrange(0, i as int));
            assert(all.subrange(0, i + 1).last() == (over@[i as int].0@, over@[i as int].1@));
        }
        replace_header(headers, over[i].0.as_str(), over[i].1.as_str());
        i = i + 1;
    }
    proof {
        assert(all.subrange(0, i as int) =~= all);
    }
}

/// Makes the header lines of a request to an upstream.
pub fn prepare_upstream_request_headers(
    client: &Vec<(String, String)>,
    route: &Result<Vec<(String, String)>, String>,
    official_account: bool,
    request_id: Option<&str>,
    auth: Option<OfficialAuth>,
) -> (r: Result<Vec<(String, String)>, HeaderFault>)
    ensures
        match r {
            Ok(h) => upstream_headers(
                pairs_view(client@),
                headers_result(*route),
                official_account,
                text_view(request_id),
                auth_view(auth),
            ) == Ok::<Seq<(Seq<char>, Seq<char>)>, HeaderFaultV>(pairs_view(h@)),
            Err(e) => upstream_headers(
                pairs_view(client@),
                headers_result(*route),
                official_account,
                text_view(request_id),
                auth_view(auth),
            ) == Err::<Seq<(Seq<char>, Seq<char>)>, HeaderFaultV>(e@),
        },
{
    let own = match route {
        Err(words) => {
            return Err(HeaderFault::Configuration(words.clone()));
        },
        Ok(h) => h,
    };
    let mut headers = forward_headers(client, official_account);
    overlay(&mut headers, own);
    if let Some(id) = request_id {
        if header_value_is_valid(id) {
            replace_header(&mut headers, "x-codey-request-id", id);
        }
    }
    if !official_account {
        return Ok(headers);
    }
    let login = match auth {
        None => {
            return Err(HeaderFault::AuthMissing);
        },
        Some(a) => a,
    };
    if !header_value_is_valid(login.authorization.as_str()) {
        return Err(HeaderFault::AuthInvalid);
    }
    replace_header(&mut headers, "authorization", login.authorization.as_str());
    headers = without_header(&headers, CHATGPT_ACCOUNT_ID_HEADER);
    if let Some(id) = &login.account_id {
        if header_value_is_valid(id.as_str()) {
            replace_header(&mut headers, CHATGPT_ACCOUNT_ID_HEADER, id.as_str());
        }
    }
    Ok(headers)
}

/// What the last header line of a name says.
pub open spec fn value_of(headers: Seq<(Seq<char>, Seq<char>)>, name: Seq<char>) -> Option<Seq<char>>
    decreases headers.len(),
{
    if headers.len() == 0 {
        None
    } else if lower(headers.last().0) == lower(name) {
        Some(headers.last().1)
    } else {
        value_of(headers.drop_last(), name)
    }
}

proof fn lemma_value_after_unset(
    headers: Seq<(Seq<char>, Seq<char>)>,
    gone: Seq<char>,
    name: Seq<char>,
)
    ensures
        value_of(unset_header(headers, gone), name) == if lower(gone) == lower(name) {
            None
        } else {
            value_of(headers, name)
        },
    decreases headers.len(),
{
    if headers.len() > 0 {
        let rest = headers.drop_last();
        lemma_value_after_unset(rest, gone, name);
        if !same_ignoring_case(headers.last().0, gone) {
            let after = unset_header(headers, gone);
            assert(after.drop_last() =~= unset_header(rest, gone));
            assert(after.last() == headers.last());
        }
    }
}

proof fn lemma_value_after_set(
    headers: Seq<(Seq<char>, Seq<char>)>,
    given: Seq<char>,
    value: Seq<char>,
    name: Seq<char>,
)
    ensures
        value_of(set_header(headers, given, value), name) == if lower(given) == lower(name) {
            Some(value)
        } else {
            value_of(headers, name)
        },
{
    lemma_value_after_unset(headers, given, name);
    let after = set_header(headers, given, value);
    assert(after.drop_last() =~= unset_header(headers, given));
    assert(after.last() == (given, value));
}

proof fn lemma_lower_again(s: Seq<char>)
    ensures
        lower(lower(s)) == lower(s),
{
    assert(lower(lower(s)) =~= lower(s));
}

proof fn lemma_forwarded_value(
    client: Seq<(Seq<char>, Seq<char>)>,
    official: bool,
    name: Seq<char>,
)
    ensures
        value_of(forwarded_headers(client, official), name) matches Some(value) ==> forwarded(
            name,
            official,
        ) && is_line_of(client, name, value),
    decreases client.len(),
{
    if client.len() > 0 {
        let rest = client.drop_last();
        lemma_forwarded_value(rest, official, name);
        let line = client.last();
        lemma_lower_again(line.0);
        if header_name_form(line.0) is Some && forwarded(line.0, official) && sendable(line.1) {
            lemma_value_after_set(forwarded_headers(rest, official), lower(line.0), line.1, name);
        }
        if let Some(value) = value_of(forwarded_headers(client, official), name) {
            if is_line_of(rest, name, value) {
                let i = choose|i: int|
                    0 <= i < rest.len() && lower((#[trigger] rest[i]).0) == lower(name) && rest[i].1
                        == value;
                assert(client[i] == rest[i]);
            } else {
                assert(client[client.len() - 1] == line);
            }
        }
    }
}

/// Some header line has this name and this value.
pub open spec fn is_line_of(
    headers: Seq<(Seq<char>, Seq<char>)>,
    name: Seq<char>,
    value: Seq<char>,
) -> bool {
    exists|i: int|
        0 <= i < headers.len() && lower((#[trigger] headers[i]).0) == lower(name) && headers[i].1
            == value
}

proof fn lemma_last_line_is_forwarded(
    client: Seq<(Seq<char>, Seq<char>)>,
    official: bool,
    i: int,
)
    requires
        0 <= i < client.len(),
        header_name_form(client[i].0) is Some,
        forwarded(client[i].0, official),
        sendable(client[i].1),
        forall|j: int|
            i < j < client.len() ==> lower((#[trigger] client[j]).0) != lower(client[i].0),
    ensures
        value_of(forwarded_headers(client, official), client[i].0) == Some(client[i].1),
    decreases client.len(),
{
    let rest = client.drop_last();
    let line = client.last();
    lemma_lower_again(line.0);
    if header_name_form(line.0) is Some && forwarded(line.0, official) && sendable(line.1) {
        lemma_value_after_set(
            forwarded_headers(rest, official),
            lower(line.0),
            line.1,
            client[i].0,
        );
    }
    if i < client.len() - 1 {
        assert(client[client.len() - 1] == line);
        assert(rest[i] == client[i]);
        assert forall|j: int| i < j < rest.len() implies lower((#[trigger] rest[j]).0) != lower(
            rest[i].0,
        ) by {
            assert(client[j] == rest[j]);
        }
        lemma_last_line_is_forwarded(rest, official, i);
    }
}

proof fn lemma_value_overlaid(
    under: Seq<(Seq<char>, Seq<char>)>,
    over: Seq<(Seq<char>, Seq<char>)>,
    name: Seq<char>,
)
    ensures
        value_of(overlaid(under, over), name) == if value_of(over, name) is Some {
            value_of(over, name)
        } else {
            value_of(under, name)
        },
    decreases over.len(),
{
    if over.len() > 0 {
        lemma_value_overlaid(under, over.drop_last(), name);
        lemma_value_after_set(
            overlaid(under, over.drop_last()),
            over.last().0,
            over.last().1,
            name,
        );
    }
}

/// The name is that of a line which the router writes itself: the login and the account of an official
/// account, and the number of the request.
pub open spec fn is_own_line(
    name: Seq<char>,
    official_account: bool,
    request_id: Option<Seq<char>>,
) -> bool {
    ||| official_account && lower(name) == lower("authorization"@)
    ||| official_account && lower(name) == lower(CHATGPT_ACCOUNT_ID_HEADER@)
    ||| request_id is Some && sendable(request_id->0) && lower(name) == lower("x-codey-request-id"@)
}

/// An upstream is sent the login of the official account, and no other, where it is one; and what
/// the route's own header lines say comes before what the client's say. Nothing else is sent but what
/// the client sent and what goes upstream.
pub proof fn every_line_has_its_source(
    client: Seq<(Seq<char>, Seq<char>)>,
    own: Seq<(Seq<char>, Seq<char>)>,
    official_account: bool,
    request_id: Option<Seq<char>>,
    auth: Option<(Seq<char>, Option<Seq<char>>)>,
    name: Seq<char>,
)
    requires
        upstream_headers(client, Ok(own), official_account, request_id, auth) is Ok,
    ensures
        ({
            let sent = upstream_headers(client, Ok(own), official_account, request_id, auth)->Ok_0;
            let value = value_of(sent, name);
            &&& official_account ==> auth is Some && value_of(sent, "authorization"@) == Some(
                (auth->0).0,
            )
            &&& official_account ==> value_of(sent, CHATGPT_ACCOUNT_ID_HEADER@) == match (
            auth->0).1 {
                Some(id) => if sendable(id) {
                    Some(id)
                } else {
                    None
                },
                None => None,
            }
            &&& request_id is Some && sendable(request_id->0) ==> value_of(
                sent,
                "x-codey-request-id"@,
            ) == request_id
            &&& !is_own_line(name, official_account, request_id) && value_of(own, name) is Some
                ==> value == value_of(own, name)
            &&& !is_own_line(name, official_account, request_id) && value_of(own, name) is None
                && value is Some ==> forwarded(name, official_account) && is_line_of(
                client,
                name,
                value->0,
            )
        }),
{
    lemma_value_upstream(client, own, official_account, request_id, auth, name);
    lemma_value_upstream(client, own, official_account, request_id, auth, "authorization"@);
    lemma_value_upstream(
        client,
        own,
        official_account,
        request_id,
        auth,
        CHATGPT_ACCOUNT_ID_HEADER@,
    );
    lemma_value_upstream(client, own, official_account, request_id, auth, "x-codey-request-id"@);
    lemma_own_lines_differ();
    lemma_forwarded_value(client, official_account, name);
}

proof fn lemma_own_lines_differ()
    ensures
        lower("authorization"@) != lower(CHATGPT_ACCOUNT_ID_HEADER@),
        lower("authorization"@) != lower("x-codey-request-id"@),
        lower(CHATGPT_ACCOUNT_ID_HEADER@) != lower("x-codey-request-id"@),
{
    reveal_strlit("authorization");
    reveal_strlit("chatgpt-account-id");
    reveal_strlit("x-codey-request-id");
    assert(lower("authorization"@).len() == 13);
    assert(lower(CHATGPT_ACCOUNT_ID_HEADER@).len() == 18);
    assert(lower("x-codey-request-id"@).len() == 18);
    assert(lower(CHATGPT_ACCOUNT_ID_HEADER@)[0] == 'c' || lower(CHATGPT_ACCOUNT_ID_HEADER@)[0]
        == 'C');
    assert(lower("x-codey-request-id"@)[0] == 'x');
}

proof fn lemma_value_upstream(
    client: Seq<(Seq<char>, Seq<char>)>,
    own: Seq<(Seq<char>, Seq<char>)>,
    official_account: bool,
    request_id: Option<Seq<char>>,
    auth: Option<(Seq<char>, Option<Seq<char>>)>,
    name: Seq<char>,
)
    requires
        upstream_headers(client, Ok(own), official_account, request_id, auth) is Ok,
    ensures
        ({
            let sent = upstream_headers(client, Ok(own), official_account, request_id, auth)->Ok_0;
            let value = value_of(sent, name);
            let numbered = request_id is Some && sendable(request_id->0) && lower(name) == lower(
                "x-codey-request-id"@,
            );
            let account = official_account && lower(name) == lower(CHATGPT_ACCOUNT_ID_HEADER@);
            let login = official_account && lower(name) == lower("authorization"@);
            &&& official_account ==> auth is Some
            &&& account ==> value == match (auth->0).1 {
                Some(id) => if sendable(id) {
                    Some(id)
                } else {
                    None
                },
                None => None,
            }
            &&& !account && login ==> value == Some((auth->0).0)
            &&& !account && !login && numbered ==> value == request_id
            &&& !account && !login && !numbered ==> value == if value_of(own, name) is Some {
                value_of(own, name)
            } else {
                value_of(forwarded_headers(client, official_account), name)
            }
        }),
{
    let under = forwarded_headers(client, official_account);
    let merged = overlaid(under, own);
    lemma_value_overlaid(under, own, name);
    let numbered = if request_id is Some && sendable(request_id->0) {
        set_header(merged, "x-codey-request-id"@, request_id->0)
    } else {
        merged
    };
    if request_id is Some && sendable(request_id->0) {
        lemma_value_after_set(merged, "x-codey-request-id"@, request_id->0, name);
    }
    if official_account {
        let (authorization, account_id) = auth->0;
        let named = set_header(numbered, "authorization"@, authorization);
        lemma_value_after_set(numbered, "authorization"@, authorization, name);
        lemma_value_after_unset(named, CHATGPT_ACCOUNT_ID_HEADER@, name);
        let cleared = unset_header(named, CHATGPT_ACCOUNT_ID_HEADER@);
        if account_id is Some && sendable(account_id->0) {
            lemma_value_after_set(cleared, CHATGPT_ACCOUNT_ID_HEADER@, account_id->0, name);
        }
    }
}

/// What the client says goes upstream: the last of its header lines with a name that goes there is
/// sent as it is, unless the router or the route has a line of that name.
pub proof fn a_line_of_the_client_goes_upstream(
    client: Seq<(Seq<char>, Seq<char>)>,
    own: Seq<(Seq<char>, Seq<char>)>,
    official_account: bool,
    request_id: Option<Seq<char>>,
    auth: Option<(Seq<char>, Option<Seq<char>>)>,
    i: int,
)
    requires
        upstream_headers(client, Ok(own), official_account, request_id, auth) is Ok,
        0 <= i < client.len(),
        header_name_form(client[i].0) is Some,
        forwarded(client[i].0, official_account),
        sendable(client[i].1),
        forall|j: int|
            i < j < client.len() ==> lower((#[trigger] client[j]).0) != lower(client[i].0),
        !is_own_line(client[i].0, official_account, request_id),
        value_of(own, client[i].0) is None,
    ensures
        value_of(
            upstream_headers(client, Ok(own), official_account, request_id, auth)->Ok_0,
            client[i].0,
        ) == Some(client[i].1),
{
    lemma_value_upstream(client, own, official_account, request_id, auth, client[i].0);
    lemma_last_line_is_forwarded(client, official_account, i);
}

/// The client's own login goes to no route: what a route that is no official account is sent as a
/// login is the route's own.
pub proof fn the_login_of_the_client_stays_here(
    client: Seq<(Seq<char>, Seq<char>)>,
    own: Seq<(Seq<char>, Seq<char>)>,
    request_id: Option<Seq<char>>,
    auth: Option<(Seq<char>, Option<Seq<char>>)>,
)
    requires
        upstream_headers(client, Ok(own), false, request_id, auth) is Ok,
    ensures
        value_of(
            upstream_headers(client, Ok(own), false, request_id, auth)->Ok_0,
            "authorization"@,
        ) == value_of(own, "authorization"@),
{
    lemma_own_lines_differ();
    lemma_value_upstream(client, own, false, request_id, auth, "authorization"@);
    lemma_forwarded_value(client, false, "authorization"@);
}

/// An official account is sent nothing without a login.
pub proof fn an_official_account_needs_a_login(
    client: Seq<(Seq<char>, Seq<char>)>,
    own: Seq<(Seq<char>, Seq<char>)>,
    request_id: Option<Seq<char>>,
    auth: Option<(Seq<char>, Option<Seq<char>>)>,
)
    ensures
        upstream_headers(client, Ok(own), true, request_id, auth) is Ok <==> auth is Some
            && sendable((auth->0).0),
        upstream_headers(client, Ok(own), false, request_id, auth) is Ok,
{
}

/// Conversations are told apart by the threads that their header lines name: two requests belong to
/// one thread exactly where they name the same, and no thread is taken for a session.
pub proof fn threads_are_told_apart(
    first: Seq<(Seq<char>, Seq<char>)>,
    second: Seq<(Seq<char>, Seq<char>)>,
)
    requires
        header_value(first, "thread-id"@) is Some && is_plain_id(
            trim(header_value(first, "thread-id"@)->0),
        ),
        header_value(second, "thread-id"@) is Some && is_plain_id(
            trim(header_value(second, "thread-id"@)->0),
        ),
    ensures
        binding_keys(first).len() > 0 && binding_keys(second).len() > 0,
        binding_keys(first)[0] == binding_keys(second)[0] <==> trim(
            header_value(first, "thread-id"@)->0,
        ) == trim(header_value(second, "thread-id"@)->0),
        forall|i: int| 1 <= i < binding_keys(second).len() ==> binding_keys(first)[0]
            != #[trigger] binding_keys(second)[i],
{
    let a = trim(header_value(first, "thread-id"@)->0);
    let b = trim(header_value(second, "thread-id"@)->0);
    reveal_strlit("thread-id");
    reveal_strlit("session-id");
    reveal_strlit(":");
    let head = "thread-id"@ + ":"@;
    let n = head.len() as int;
    assert((head + a).subrange(n, (head + a).len() as int) =~= a);
    assert((head + b).subrange(n, (head + b).len() as int) =~= b);
    assert((head + a)[0] == 't');
    if binding_keys(second).len() > 1 {
        assert(binding_keys(second)[1][0] == 's');
    }
}

/// A body goes upstream member by member: each that the router may not change is written as it was
/// sent, to the letter and in its place; one that it may change is written with its new value, or left
/// out where it has none.
pub proof fn members_go_upstream_one_by_one(
    first: Seq<(Seq<char>, Seq<char>)>,
    field: (Seq<char>, Seq<char>),
    second: Seq<(Seq<char>, Seq<char>)>,
    updated: JsonV,
)
    ensures
        ({
            let (name, raw) = field;
            let changes = name == "model"@ || name == "client_metadata"@ || name
                == "previous_response_id"@;
            let own = if !changes {
                seq![json_text(JsonV::Str(name)) + ":"@ + raw]
            } else if updated.get(name) is Some {
                seq![json_text(JsonV::Str(name)) + ":"@ + json_text(updated.get(name)->0)]
            } else {
                Seq::empty()
            };
            rewritten_members(first.push(field) + second, updated) == rewritten_members(
                first,
                updated,
            ) + own + rewritten_members(second, updated)
        }),
    decreases second.len(),
{
    let (name, raw) = field;
    let all = first.push(field) + second;
    let own = if !is_rewritten(name) {
        seq![member_text(name, raw)]
    } else if updated.get(name) is Some {
        seq![member_text(name, json_text(updated.get(name)->0))]
    } else {
        Seq::empty()
    };
    if second.len() == 0 {
        assert(all =~= first.push(field));
        assert(all.drop_last() =~= first);
        assert(all.last() == field);
    } else {
        members_go_upstream_one_by_one(first, field, second.drop_last(), updated);
        assert(all.drop_last() =~= first.push(field) + second.drop_last());
        assert(all.last() == second.last());
    }
    assert(rewritten_members(all, updated) =~= rewritten_members(first, updated) + own
        + rewritten_members(second, updated));
}

/// A line of a handshake counts for the requests on its socket unless it belongs to the connection,
/// by its name, as a line of the handshake itself, or because the connection says so. Lines that count
/// stay in their order.
pub proof fn a_line_of_a_handshake_counts(
    first: Seq<(Seq<char>, Seq<char>)>,
    line: (Seq<char>, Seq<char>),
    second: Seq<(Seq<char>, Seq<char>)>,
    scoped: Seq<Seq<char>>,
)
    ensures
        ({
            let left_out = hop_by_hop(line.0) || starts_with(lower(line.0), "sec-websocket-"@)
                || scoped.contains(lower(line.0));
            socket_headers(first.push(line) + second, scoped) == socket_headers(first, scoped) + (
            if left_out {
                Seq::empty()
            } else {
                seq![line]
            }) + socket_headers(second, scoped)
        }),
    decreases second.len(),
{
    let all = first.push(line) + second;
    let own = if hop_by_hop(line.0) || starts_with(lower(line.0), "sec-websocket-"@)
        || scoped.contains(lower(line.0)) {
        Seq::empty()
    } else {
        seq![line]
    };
    if second.len() == 0 {
        assert(all =~= first.push(line));
        assert(all.drop_last() =~= first);
        assert(all.last() == line);
    } else {
        a_line_of_a_handshake_counts(first, line, second.drop_last(), scoped);
        assert(all.drop_last() =~= first.push(line) + second.drop_last());
        assert(all.last() == second.last());
    }
    assert(socket_headers(all, scoped) =~= socket_headers(first, scoped) + own + socket_headers(
        second,
        scoped,
    ));
}

/// Bringing a routing hint in line with the model touches no other header line.
pub proof fn only_the_hint_is_aligned(
    headers: Seq<(Seq<char>, Seq<char>)>,
    upstream_model: Seq<char>,
    name: Seq<char>,
)
    requires
        lower(name) != lower(ROUTING_HINT_HEADER@),
    ensures
        value_of(aligned_headers(headers, upstream_model), name) == value_of(headers, name),
{
    lemma_value_after_unset(headers, ROUTING_HINT_HEADER@, name);
    if let Some(value) = header_value(headers, ROUTING_HINT_HEADER@) {
        lemma_value_after_set(
            headers,
            ROUTING_HINT_HEADER@,
            aligned_hint(value, upstream_model),
            name,
        );
    }
}

/// A request is given a cache key where it has none, on a native route, and never another than its own;
/// no other header line changes, and on another route none does.
pub proof fn a_cache_key_of_the_request_stays(
    headers: Seq<(Seq<char>, Seq<char>)>,
    bridge: ProtocolBridge,
    body: JsonV,
    route_id: Seq<char>,
    upstream_url: Seq<char>,
    upstream_model: Seq<char>,
)
    ensures
        ({
            let keyed = keyed_headers(
                headers,
                bridge,
                body,
                route_id,
                upstream_url,
                upstream_model,
            );
            let own = header_value(headers, "prompt-cache-key"@) is Some || header_value(
                headers,
                "prompt_cache_key"@,
            ) is Some || body.get("prompt_cache_key"@) is Some;
            &&& own || bridge != ProtocolBridge::NativeResponses ==> keyed == headers
            &&& !own && bridge == ProtocolBridge::NativeResponses ==> keyed.len() == headers.len() + 1
                && keyed.drop_last() == headers && keyed.last().0 == "prompt-cache-key"@
                && value_of(keyed, "prompt-cache-key"@) == Some(keyed.last().1)
        }),
{
    let keyed = keyed_headers(headers, bridge, body, route_id, upstream_url, upstream_model);
    if keyed.len() > headers.len() {
        assert(keyed.drop_last() =~= headers);
    }
}

/// Of several header lines with a name the first one counts, in whatever case it is written; and where
/// there is none, there is no value.
pub proof fn the_first_line_of_a_name_counts(
    headers: Seq<(Seq<char>, Seq<char>)>,
    name: Seq<char>,
    i: int,
)
    ensures
        0 <= i < headers.len() && lower(headers[i].0) == lower(name) && (forall|j: int|
            0 <= j < i ==> lower((#[trigger] headers[j]).0) != lower(name)) ==> header_value(
            headers,
            name,
        ) == Some(headers[i].1),
        (forall|j: int| 0 <= j < headers.len() ==> lower((#[trigger] headers[j]).0) != lower(name))
            ==> header_value(headers, name) is None,
    decreases headers.len(),
{
    if headers.len() > 0 {
        let rest = headers.subrange(1, headers.len() as int);
        the_first_line_of_a_name_counts(rest, name, i - 1);
        if 0 < i < headers.len() && lower(headers[i].0) == lower(name) && (forall|j: int|
            0 <= j < i ==> lower((#[trigger] headers[j]).0) != lower(name)) {
            assert(lower(headers[0].0) != lower(name));
            assert(rest[i - 1] == headers[i]);
            assert forall|j: int| 0 <= j < i - 1 implies lower((#[trigger] rest[j]).0) != lower(
                name,
            ) by {
                assert(rest[j] == headers[j + 1]);
            }
        }
        if forall|j: int| 0 <= j < headers.len() ==> lower((#[trigger] headers[j]).0) != lower(name) {
            assert(lower(headers[0].0) != lower(name));
            assert forall|j: int| 0 <= j < rest.len() implies lower((#[trigger] rest[j]).0) != lower(
                name,
            ) by {
                assert(rest[j] == headers[j + 1]);
            }
        }
    }
}

/// A request carries the router's token exactly where one of its lines does, alone or with others: no
/// line takes away what another one gives, and what no line carries the request does not.
pub proof fn the_token_is_carried_by_a_line(
    first: Seq<(Seq<char>, Seq<char>)>,
    second: Seq<(Seq<char>, Seq<char>)>,
    token: Seq<char>,
    bearer_token: Seq<char>,
)
    ensures
        carries_token(first + second, token, bearer_token) <==> carries_token(
            first,
            token,
            bearer_token,
        ) || carries_token(second, token, bearer_token),
        (forall|i: int|
            0 <= i < first.len() ==> trim((#[trigger] first[i]).1) != token && trim(first[i].1)
                != bearer_token) ==> !carries_token(first, token, bearer_token),
{
    let all = first + second;
    let test = |h: (Seq<char>, Seq<char>)|
        (same_ignoring_case(h.0, ROUTER_AUTH_HEADER@) && trim(h.1) == token) || (
        same_ignoring_case(h.0, "authorization"@) && trim(h.1) == bearer_token);
    if carries_token(all, token, bearer_token) {
        let i = choose|i: int| 0 <= i < all.len() && test(#[trigger] all[i]);
        if i < first.len() {
            assert(first[i] == all[i]);
        } else {
            assert(second[i - first.len()] == all[i]);
        }
    }
    if carries_token(first, token, bearer_token) {
        let i = choose|i: int| 0 <= i < first.len() && test(#[trigger] first[i]);
        assert(all[i] == first[i]);
    }
    if carries_token(second, token, bearer_token) {
        let i = choose|i: int| 0 <= i < second.len() && test(#[trigger] second[i]);
        assert(all[i + first.len()] == second[i]);
    }
}

/// A line with the token as a bearer's authorizes, and so does one of the router's own; a line of
/// another name does not, whatever it says.
pub proof fn a_token_is_looked_for_in_its_lines(
    name: Seq<char>,
    value: Seq<char>,
    token: Seq<char>,
    bearer_token: Seq<char>,
)
    ensures
        carries_token(seq![(name, value)], token, bearer_token) <==> (lower(name) == lower(
            "authorization"@,
        ) && trim(value) == bearer_token) || (lower(name) == lower(ROUTER_AUTH_HEADER@) && trim(
            value,
        ) == token),
{
    let one = seq![(name, value)];
    assert(one[0] == (name, value));
}

/// The router's own token is never taken for the client's login, and any other login is the client's.
pub proof fn the_routers_token_is_no_login(
    headers: Seq<(Seq<char>, Seq<char>)>,
    router_bearer_token: Seq<char>,
)
    ensures
        client_authorization(headers, router_bearer_token) matches Some(v) ==> trim(v)
            != router_bearer_token && header_value(headers, "authorization"@) == Some(v),
        header_value(headers, "authorization"@) is Some && trim(
            header_value(headers, "authorization"@)->0,
        ) != router_bearer_token ==> client_authorization(headers, router_bearer_token)
            == header_value(headers, "authorization"@),
{
}

/// A member that was not sent is written where the request now has it, and only once.
pub proof fn a_new_member_is_written_once(
    members: Seq<Seq<char>>,
    fields: Seq<(Seq<char>, Seq<char>)>,
    updated: JsonV,
    name: Seq<char>,
)
    ensures
        (exists|i: int| 0 <= i < fields.len() && (#[trigger] fields[i]).0 == name)
            ==> with_new_member(members, fields, updated, name) == members,
        updated.get(name) is None ==> with_new_member(members, fields, updated, name) == members,
        !(exists|i: int| 0 <= i < fields.len() && (#[trigger] fields[i]).0 == name) && updated.get(
            name,
        ) is Some ==> with_new_member(members, fields, updated, name) == members.push(
            json_text(JsonV::Str(name)) + ":"@ + json_text(updated.get(name)->0),
        ),
{
}

} // verus!
