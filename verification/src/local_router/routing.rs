//! The route table: which upstream serves a model, and how a request is given a route.
use crate::digest::{Fingerprint, add_all, add_text, sha256, sha256_of, with_length};
use crate::json::text_view;
use crate::local_router::errors::{Failure, FailureV, fail, fail_with};
use crate::model_id::{alias_of, equal, historical_source, key, model_alias, model_key};
use crate::text::{
    cat2, cat3, cat4, cat5, copy_pairs, eq_ignoring_case, list_has, listed, lower, ordered,
    ordered_pairs, pairs_view, same_ignoring_case, sort_pairs, sort_texts, str_eq, texts,
    texts_push, trim, trim_leaves_clean_ends, trimmed, words,
};
use crate::textmap::{TextBox, TextMap, lookup, lookup_place, set_then_look, with_key};
use vstd::prelude::*;
use vstd::string::*;
use vstd::utf8::*;

verus! {

/// The hidden model with which Codex reviews approvals.
pub const CODEX_AUTO_REVIEW_MODEL: &'static str = "codex-auto-review";

pub const UPSTREAM_PROTOCOL_OPENAI_RESPONSES: &'static str = "openaiResponses";

pub const UPSTREAM_PROTOCOL_OPENAI_CHAT_COMPLETIONS: &'static str = "openaiChatCompletions";

pub const UPSTREAM_PROTOCOL_ANTHROPIC_MESSAGES: &'static str = "anthropicMessages";

/// The protocols that an upstream can speak.
#[derive(Clone, Copy, Debug, PartialEq, Eq, Structural)]
pub enum UpstreamProtocol {
    OpenAiResponses,
    OpenAiChatCompletions,
    AnthropicMessages,
}

/// How a Responses request reaches an upstream.
#[derive(Clone, Copy, Debug, PartialEq, Eq, Structural)]
pub enum ProtocolBridge {
    NativeResponses,
    ResponsesToChatCompletions,
    ResponsesToAnthropicMessages,
}

/// The bridge to a protocol.
pub open spec fn bridge_to(protocol: UpstreamProtocol) -> ProtocolBridge {
    match protocol {
        UpstreamProtocol::OpenAiResponses => ProtocolBridge::NativeResponses,
        UpstreamProtocol::OpenAiChatCompletions => ProtocolBridge::ResponsesToChatCompletions,
        UpstreamProtocol::AnthropicMessages => ProtocolBridge::ResponsesToAnthropicMessages,
    }
}

impl ProtocolBridge {
    pub fn from_upstream_protocol(protocol: UpstreamProtocol) -> (r: ProtocolBridge)
        ensures
            r == bridge_to(protocol),
    {
        match protocol {
            UpstreamProtocol::OpenAiResponses => ProtocolBridge::NativeResponses,
            UpstreamProtocol::OpenAiChatCompletions => ProtocolBridge::ResponsesToChatCompletions,
            UpstreamProtocol::AnthropicMessages => ProtocolBridge::ResponsesToAnthropicMessages,
        }
    }

    /// Whether a streamed answer can be collected into a whole one.
    pub fn can_collect_streamed_response(self) -> (r: bool)
        ensures
            r == (self != ProtocolBridge::NativeResponses),
    {
        match self {
            ProtocolBridge::NativeResponses => false,
            _ => true,
        }
    }
}

/// A route as the configuration has it, with what was prepared from it.
pub struct RouteInput {
    pub provider_id: String,
    pub name: String,
    pub enabled: bool,
    pub official_account: bool,
    pub base_url: String,
    pub protocol: UpstreamProtocol,
    pub upstream_url: Result<String, String>,
    pub upstream_compact_url: Result<String, String>,
    pub upstream_websocket_url: Result<String, String>,
    pub upstream_headers: Result<Vec<(String, String)>, String>,
    pub upstream_authority: String,
    pub supports_websockets: bool,
    pub supports_remote_compaction: bool,
    pub supports_auto_review: bool,
    /// The models that are enabled on the route.
    pub models: Vec<String>,
}

/// The configuration that a route table is made from.
pub struct RouterConfig {
    pub routes: Vec<RouteInput>,
    pub official_account_available: bool,
    pub model_alias_history: TextMap<TextBox>,
    pub default_model: String,
}

/// The view of a text or of the words of an error.
pub open spec fn text_result(r: Result<String, String>) -> Result<Seq<char>, Seq<char>> {
    match r {
        Ok(s) => Ok(s@),
        Err(e) => Err(e@),
    }
}

pub open spec fn headers_result(r: Result<Vec<(String, String)>, String>) -> Result<
    Seq<(Seq<char>, Seq<char>)>,
    Seq<char>,
> {
    match r {
        Ok(h) => Ok(pairs_view(h@)),
        Err(e) => Err(e@),
    }
}

/// A route that requests can be sent to.
pub struct RouteTarget {
    pub provider_id: String,
    pub route_name: String,
    pub upstream_url: Result<String, String>,
    pub upstream_compact_url: Result<String, String>,
    pub upstream_websocket_url: Result<String, String>,
    pub upstream_headers: Result<Vec<(String, String)>, String>,
    pub upstream_authority: String,
    pub protocol: UpstreamProtocol,
    pub official_account: bool,
    pub supports_websockets: bool,
    pub supports_remote_compaction: bool,
    pub models: Vec<String>,
    /// Identifies what a socket to the route depends on.
    pub websocket_config: Fingerprint,
    /// Identifies what a conversation on the route depends on.
    pub context_config: Fingerprint,
}

#[verifier::ext_equal]
pub struct RouteTargetV {
    pub provider_id: Seq<char>,
    pub route_name: Seq<char>,
    pub upstream_url: Result<Seq<char>, Seq<char>>,
    pub upstream_compact_url: Result<Seq<char>, Seq<char>>,
    pub upstream_websocket_url: Result<Seq<char>, Seq<char>>,
    pub upstream_headers: Result<Seq<(Seq<char>, Seq<char>)>, Seq<char>>,
    pub upstream_authority: Seq<char>,
    pub protocol: UpstreamProtocol,
    pub official_account: bool,
    pub supports_websockets: bool,
    pub supports_remote_compaction: bool,
    pub models: Seq<Seq<char>>,
    pub websocket_config: Seq<u8>,
    pub context_config: Seq<u8>,
}

impl View for RouteTarget {
    type V = RouteTargetV;

    open spec fn view(&self) -> RouteTargetV {
        RouteTargetV {
            provider_id: self.provider_id@,
            route_name: self.route_name@,
            upstream_url: text_result(self.upstream_url),
            upstream_compact_url: text_result(self.upstream_compact_url),
            upstream_websocket_url: text_result(self.upstream_websocket_url),
            upstream_headers: headers_result(self.upstream_headers),
            upstream_authority: self.upstream_authority@,
            protocol: self.protocol,
            official_account: self.official_account,
            supports_websockets: self.supports_websockets,
            supports_remote_compaction: self.supports_remote_compaction,
            models: texts(self.models@),
            websocket_config: self.websocket_config@,
            context_config: self.context_config@,
        }
    }
}

/// The bytes of header lines, each name and each value with its length.
pub open spec fn header_bytes(list: Seq<(Seq<char>, Seq<char>)>) -> Seq<u8>
    decreases list.len(),
{
    if list.len() == 0 {
        Seq::empty()
    } else {
        header_bytes(list.drop_last()) + with_length(encode_utf8(list.last().0)) + with_length(
            encode_utf8(list.last().1),
        )
    }
}

/// The bytes of an optional text.
pub open spec fn url_bytes(url: Result<Seq<char>, Seq<char>>) -> Seq<u8> {
    match url {
        Ok(u) => with_length(encode_utf8(u)),
        Err(_) => Seq::empty(),
    }
}

pub open spec fn flag_byte(flag: bool) -> u8 {
    if flag {
        1
    } else {
        0
    }
}

/// What identifies the context of a conversation on a route: the account, the addresses and the
/// header lines, in whatever order those stand.
pub open spec fn context_fingerprint(
    official_account: bool,
    upstream_url: Result<Seq<char>, Seq<char>>,
    upstream_websocket_url: Result<Seq<char>, Seq<char>>,
    upstream_headers: Result<Seq<(Seq<char>, Seq<char>)>, Seq<char>>,
) -> Seq<u8> {
    sha256_of(
        seq![flag_byte(official_account)] + url_bytes(upstream_url) + url_bytes(
            upstream_websocket_url,
        ) + (match upstream_headers {
            Ok(h) => header_bytes(ordered_pairs(h)),
            Err(_) => Seq::empty(),
        }),
    )
}

/// What identifies a socket to a route.
pub open spec fn websocket_fingerprint(supports_websockets: bool, context: Seq<u8>) -> Seq<u8> {
    sha256_of(seq![flag_byte(supports_websockets)] + context)
}

fn add_headers(out: &mut Vec<u8>, list: &Vec<(String, String)>)
    ensures
        final(out)@ == old(out)@ + header_bytes(pairs_view(list@)),
{
    let ghost all = pairs_view(list@);
    let ghost before = out@;
    let mut i: usize = 0;
    proof {
        assert(before =~= before + header_bytes(all.subrange(0, 0)));
    }
    while i < list.len()
        invariant
            i <= list.len(),
            all == pairs_view(list@),
            before == old(out)@,
            out@ == before + header_bytes(all.subrange(0, i as int)),
        decreases list.len() - i,
    {
        proof {
            assert(all.subrange(0, i + 1).drop_last() =~= all.subrange(0, i as int));
            assert(all.subrange(0, i + 1).last() == (list@[i as int].0@, list@[i as int].1@));
        }
        add_text(out, list[i].0.as_str());
        add_text(out, list[i].1.as_str());
        i = i + 1;
        proof {
            assert(out@ =~= before + header_bytes(all.subrange(0, i as int)));
        }
    }
    proof {
        assert(all.subrange(0, i as int) =~= all);
    }
}

fn context_config_fingerprint(
    official_account: bool,
    upstream_url: &Result<String, String>,
    upstream_websocket_url: &Result<String, String>,
    upstream_headers: &Result<Vec<(String, String)>, String>,
) -> (r: Fingerprint)
    ensures
        r@ == context_fingerprint(
            official_account,
            text_result(*upstream_url),
            text_result(*upstream_websocket_url),
            headers_result(*upstream_headers),
        ),
{
    let mut bytes: Vec<u8> = Vec::new();
    bytes.push(if official_account {
        1
    } else {
        0
    });
    let ghost start = bytes@;
    let ghost first = url_bytes(text_result(*upstream_url));
    let ghost second = url_bytes(text_result(*upstream_websocket_url));
    let ghost third = match headers_result(*upstream_headers) {
        Ok(h) => header_bytes(ordered_pairs(h)),
        Err(_) => Seq::empty(),
    };
    if let Ok(url) = upstream_url {
        add_text(&mut bytes, url.as_str());
    }
    proof {
        assert(bytes@ =~= start + first);
    }
    if let Ok(url) = upstream_websocket_url {
        add_text(&mut bytes, url.as_str());
    }
    proof {
        assert(bytes@ =~= start + first + second);
    }
    if let Ok(headers) = upstream_headers {
        let sorted = sort_pairs(headers);
        add_headers(&mut bytes, &sorted);
    }
    proof {
        assert(bytes@ =~= start + first + second + third);
        assert(start =~= seq![flag_byte(official_account)]);
    }
    sha256(&bytes)
}

fn websocket_config_fingerprint(supports_websockets: bool, context: &Fingerprint) -> (r: Fingerprint)
    ensures
        r@ == websocket_fingerprint(supports_websockets, context@),
{
    let mut bytes: Vec<u8> = Vec::new();
    bytes.push(if supports_websockets {
        1
    } else {
        0
    });
    let ghost start = bytes@;
    add_all(&mut bytes, context.bytes.as_slice());
    proof {
        assert(start =~= seq![flag_byte(supports_websockets)]);
    }
    sha256(&bytes)
}

/// A model on a route.
#[derive(Debug)]
pub struct AliasTarget {
    pub provider_id: String,
    pub model: String,
}

impl View for AliasTarget {
    type V = (Seq<char>, Seq<char>);

    open spec fn view(&self) -> (Seq<char>, Seq<char>) {
        (self.provider_id@, self.model@)
    }
}

/// The routes that have a model.
#[derive(Debug)]
pub struct AliasList {
    pub targets: Vec<AliasTarget>,
}

impl View for AliasList {
    type V = Seq<(Seq<char>, Seq<char>)>;

    open spec fn view(&self) -> Seq<(Seq<char>, Seq<char>)> {
        Seq::new(self.targets@.len(), |i: int| self.targets@[i]@)
    }
}

/// What a route table holds.
#[verifier::ext_equal]
pub struct SnapshotV {
    pub routes: Seq<(Seq<char>, RouteTargetV)>,
    pub aliases: Seq<(Seq<char>, (Seq<char>, Seq<char>))>,
    pub raw_models: Seq<(Seq<char>, Seq<(Seq<char>, Seq<char>)>)>,
}

/// The table of routes and models.
pub struct RouterSnapshot {
    pub routes: TextMap<RouteTarget>,
    pub aliases: TextMap<AliasTarget>,
    pub raw_models: TextMap<AliasList>,
    pub model_alias_history: TextMap<TextBox>,
    pub model_ids: Vec<String>,
    pub default_model: String,
}

/// The models of a route: those that are enabled, and the review model where the route has it.
pub open spec fn models_of_route(models: Seq<Seq<char>>, reviews: bool) -> Seq<Seq<char>> {
    if reviews && !(exists|i: int|
        0 <= i < models.len() && same_ignoring_case(
            #[trigger] models[i],
            CODEX_AUTO_REVIEW_MODEL@,
        )) {
        models.push(CODEX_AUTO_REVIEW_MODEL@)
    } else {
        models
    }
}

/// The models of a route.
pub fn route_models(models: &Vec<String>, reviews: bool) -> (r: Vec<String>)
    ensures
        texts(r@) == models_of_route(texts(models@), reviews),
{
    let mut out: Vec<String> = Vec::new();
    let mut found = false;
    let mut i: usize = 0;
    proof {
        assert(texts(out@) =~= texts(models@).subrange(0, 0));
    }
    while i < models.len()
        invariant
            i <= models.len(),
            texts(out@) == texts(models@).subrange(0, i as int),
            found == exists|j: int|
                0 <= j < i && same_ignoring_case(
                    #[trigger] texts(models@)[j],
                    CODEX_AUTO_REVIEW_MODEL@,
                ),
        decreases models.len() - i,
    {
        let model = models[i].clone();
        let same = eq_ignoring_case(model.as_str(), CODEX_AUTO_REVIEW_MODEL);
        proof {
            assert(texts(models@)[i as int] == model@);
            texts_push(out@, model);
            if same {
                assert(same_ignoring_case(texts(models@)[i as int], CODEX_AUTO_REVIEW_MODEL@));
            }
        }
        found = found || same;
        out.push(model);
        i = i + 1;
        proof {
            assert(texts(out@) =~= texts(models@).subrange(0, i as int));
        }
    }
    proof {
        assert(texts(models@).subrange(0, i as int) =~= texts(models@));
    }
    if reviews && !found {
        let review = CODEX_AUTO_REVIEW_MODEL.to_owned();
        proof {
            texts_push(out@, review);
        }
        out.push(review);
    }
    out
}

/// A route of the configuration is used where it is enabled, has an id and an address, and, for an
/// official account, the account is there.
pub open spec fn usable(input: RouteInput, official_account_available: bool) -> bool {
    &&& input.enabled
    &&& input.official_account ==> official_account_available
    &&& trim(input.provider_id@).len() > 0
    &&& input.official_account || input.base_url@.len() > 0
}

/// The target that a route of the configuration becomes.
pub open spec fn target_of(input: RouteInput) -> RouteTargetV {
    let context = context_fingerprint(
        input.official_account,
        text_result(input.upstream_url),
        text_result(input.upstream_websocket_url),
        headers_result(input.upstream_headers),
    );
    let sockets = input.protocol == UpstreamProtocol::OpenAiResponses && input.supports_websockets;
    RouteTargetV {
        provider_id: trim(input.provider_id@),
        route_name: trim(input.name@),
        upstream_url: text_result(input.upstream_url),
        upstream_compact_url: text_result(input.upstream_compact_url),
        upstream_websocket_url: text_result(input.upstream_websocket_url),
        upstream_headers: headers_result(input.upstream_headers),
        upstream_authority: input.upstream_authority@,
        protocol: input.protocol,
        official_account: input.official_account,
        supports_websockets: sockets,
        supports_remote_compaction: input.supports_remote_compaction,
        models: models_of_route(
            texts(input.models@),
            input.official_account || input.supports_auto_review,
        ),
        websocket_config: websocket_fingerprint(sockets, context),
        context_config: context,
    }
}

/// The table with one more model of a route.
pub open spec fn add_model(table: SnapshotV, provider_id: Seq<char>, model: Seq<char>) -> SnapshotV {
    let known = match lookup(table.raw_models, model_key(model)) {
        Some(list) => list,
        None => Seq::empty(),
    };
    SnapshotV {
        aliases: with_key(
            table.aliases,
            model_key(alias_of(provider_id, model)),
            (provider_id, model),
        ),
        raw_models: with_key(
            table.raw_models,
            model_key(model),
            known.push((provider_id, model)),
        ),
        ..table
    }
}

/// The table with the first models of a list.
pub open spec fn add_models(
    table: SnapshotV,
    provider_id: Seq<char>,
    models: Seq<Seq<char>>,
    n: int,
) -> SnapshotV
    decreases n,
{
    if n <= 0 {
        table
    } else {
        add_model(add_models(table, provider_id, models, n - 1), provider_id, models[n - 1])
    }
}

/// The table with one more route of the configuration.
pub open spec fn add_route(table: SnapshotV, input: RouteInput, official_account_available: bool) -> SnapshotV {
    if !usable(input, official_account_available) {
        table
    } else {
        let target = target_of(input);
        let full = add_models(table, target.provider_id, target.models, target.models.len() as int);
        SnapshotV { routes: with_key(full.routes, target.provider_id, target), ..full }
    }
}

/// The table of the first routes of a configuration.
pub open spec fn table_of(inputs: Seq<RouteInput>, official_account_available: bool, n: int) -> SnapshotV
    decreases n,
{
    if n <= 0 {
        SnapshotV { routes: Seq::empty(), aliases: Seq::empty(), raw_models: Seq::empty() }
    } else {
        add_route(
            table_of(inputs, official_account_available, n - 1),
            inputs[n - 1],
            official_account_available,
        )
    }
}

/// The ids under which models are listed: for each model its first spelling.
pub open spec fn first_spellings(raw_models: Seq<(Seq<char>, Seq<(Seq<char>, Seq<char>)>)>) -> Seq<
    Seq<char>,
>
    decreases raw_models.len(),
{
    if raw_models.len() == 0 {
        Seq::empty()
    } else {
        let rest = first_spellings(raw_models.drop_last());
        let list = raw_models.last().1;
        if list.len() > 0 {
            rest.push(list[0].1)
        } else {
            rest
        }
    }
}

fn copy_text_result(r: &Result<String, String>) -> (c: Result<String, String>)
    ensures
        text_result(c) == text_result(*r),
{
    match r {
        Ok(s) => Ok(s.clone()),
        Err(e) => Err(e.clone()),
    }
}

fn copy_headers_result(r: &Result<Vec<(String, String)>, String>) -> (c: Result<
    Vec<(String, String)>,
    String,
>)
    ensures
        headers_result(c) == headers_result(*r),
{
    match r {
        Ok(h) => Ok(copy_pairs(h)),
        Err(e) => Err(e.clone()),
    }
}

fn make_target(input: &RouteInput) -> (r: RouteTarget)
    ensures
        r@ == target_of(*input),
{
    let context_config = context_config_fingerprint(
        input.official_account,
        &input.upstream_url,
        &input.upstream_websocket_url,
        &input.upstream_headers,
    );
    let sockets = input.supports_websockets && (match input.protocol {
        UpstreamProtocol::OpenAiResponses => true,
        _ => false,
    });
    let websocket_config = websocket_config_fingerprint(sockets, &context_config);
    RouteTarget {
        provider_id: trimmed(input.provider_id.as_str()),
        route_name: trimmed(input.name.as_str()),
        upstream_url: copy_text_result(&input.upstream_url),
        upstream_compact_url: copy_text_result(&input.upstream_compact_url),
        upstream_websocket_url: copy_text_result(&input.upstream_websocket_url),
        upstream_headers: copy_headers_result(&input.upstream_headers),
        upstream_authority: input.upstream_authority.clone(),
        protocol: input.protocol,
        official_account: input.official_account,
        supports_websockets: sockets,
        supports_remote_compaction: input.supports_remote_compaction,
        models: route_models(&input.models, input.official_account || input.supports_auto_review),
        websocket_config,
        context_config,
    }
}

/// What is shown of a route: its name, or its id where it has none.
pub open spec fn display_name(route: RouteTargetV) -> Seq<char> {
    if route.route_name.len() > 0 {
        route.route_name
    } else {
        route.provider_id
    }
}

/// What is shown of a route.
pub fn route_display_name(route: &RouteTarget) -> (r: &str)
    ensures
        r@ == display_name(route@),
{
    if route.route_name.as_str().is_empty() {
        route.provider_id.as_str()
    } else {
        route.route_name.as_str()
    }
}

/// The route and the model that a request was given.
#[derive(Debug)]
pub struct RouteSelection {
    pub provider_id: String,
    pub protocol: UpstreamProtocol,
    pub requested_model: String,
    pub upstream_model: String,
}

#[verifier::ext_equal]
pub struct SelectionV {
    pub provider_id: Seq<char>,
    pub protocol: UpstreamProtocol,
    pub requested_model: Seq<char>,
    pub upstream_model: Seq<char>,
}

impl View for RouteSelection {
    type V = SelectionV;

    open spec fn view(&self) -> SelectionV {
        SelectionV {
            provider_id: self.provider_id@,
            protocol: self.protocol,
            requested_model: self.requested_model@,
            upstream_model: self.upstream_model@,
        }
    }
}

pub open spec fn selection_result(r: Result<RouteSelection, Failure>) -> Result<
    SelectionV,
    FailureV,
> {
    match r {
        Ok(s) => Ok(s@),
        Err(e) => Err(e@),
    }
}

/// A model on a route, where the route is there and has the model.
pub open spec fn select_on_route(
    routes: Seq<(Seq<char>, RouteTargetV)>,
    provider_id: Seq<char>,
    model: Seq<char>,
    requested_model: Seq<char>,
) -> Result<SelectionV, FailureV> {
    match lookup(routes, provider_id) {
        None => Err(FailureV::Text("线路已不存在："@ + provider_id)),
        Some(target) => if !target.models.contains(model) {
            Err(FailureV::Text("线路「"@ + display_name(target) + "」未启用模型 "@ + model))
        } else {
            Ok(
                SelectionV {
                    provider_id: target.provider_id,
                    protocol: target.protocol,
                    requested_model,
                    upstream_model: model,
                },
            )
        },
    }
}

/// The first candidate on a route.
pub open spec fn candidate_on(list: Seq<(Seq<char>, Seq<char>)>, provider_id: Seq<char>) -> Option<
    (Seq<char>, Seq<char>),
>
    decreases list.len(),
{
    if list.len() == 0 {
        None
    } else if list[0].0 == provider_id {
        Some(list[0])
    } else {
        candidate_on(list.subrange(1, list.len() as int), provider_id)
    }
}

/// The route is there and belongs to an official account.
pub open spec fn is_official(routes: Seq<(Seq<char>, RouteTargetV)>, provider_id: Seq<char>) -> bool {
    lookup(routes, provider_id) matches Some(t) && t.official_account
}

/// The first candidate on an official route.
pub open spec fn official_candidate(
    routes: Seq<(Seq<char>, RouteTargetV)>,
    list: Seq<(Seq<char>, Seq<char>)>,
) -> Option<(Seq<char>, Seq<char>)>
    decreases list.len(),
{
    if list.len() == 0 {
        None
    } else if is_official(routes, list[0].0) {
        Some(list[0])
    } else {
        official_candidate(routes, list.subrange(1, list.len() as int))
    }
}

/// The first official route that reviews.
pub open spec fn reviewing_route(routes: Seq<(Seq<char>, RouteTargetV)>) -> Option<Seq<char>>
    decreases routes.len(),
{
    if routes.len() == 0 {
        None
    } else {
        let t = routes[0].1;
        if t.official_account && t.models.contains(CODEX_AUTO_REVIEW_MODEL@) {
            Some(t.provider_id)
        } else {
            reviewing_route(routes.subrange(1, routes.len() as int))
        }
    }
}

/// The routes that have a model.
pub open spec fn candidates_for(
    raw_models: Seq<(Seq<char>, Seq<(Seq<char>, Seq<char>)>)>,
    model: Seq<char>,
) -> Seq<(Seq<char>, Seq<char>)> {
    match lookup(raw_models, model_key(model)) {
        Some(list) => list,
        None => Seq::empty(),
    }
}

pub open spec fn hinted(list: Seq<(Seq<char>, Seq<char>)>, hint: Option<Seq<char>>) -> Option<
    (Seq<char>, Seq<char>),
> {
    match hint {
        Some(h) => candidate_on(list, h),
        None => None,
    }
}

/// The route for a model's own id. An explicit hint comes first, then an official account, then
/// the route that the conversation is bound to, then for the review model a reviewing account, then
/// the one route that has the model. With several left, none is guessed.
pub open spec fn select_raw(
    table: SnapshotV,
    model: Seq<char>,
    route_hint: Option<Seq<char>>,
    bound_route: Option<Seq<char>>,
    requested_model: Seq<char>,
) -> Result<SelectionV, FailureV> {
    let list = candidates_for(table.raw_models, model);
    let review = model_key(model) == model_key(CODEX_AUTO_REVIEW_MODEL@);
    if hinted(list, route_hint) is Some {
        select_on_route(
            table.routes,
            route_hint->0,
            (hinted(list, route_hint)->0).1,
            requested_model,
        )
    } else if !review && official_candidate(table.routes, list) is Some {
        let c = official_candidate(table.routes, list)->0;
        select_on_route(table.routes, c.0, c.1, requested_model)
    } else if hinted(list, bound_route) is Some {
        select_on_route(
            table.routes,
            bound_route->0,
            (hinted(list, bound_route)->0).1,
            requested_model,
        )
    } else if review && reviewing_route(table.routes) is Some {
        select_on_route(
            table.routes,
            reviewing_route(table.routes)->0,
            CODEX_AUTO_REVIEW_MODEL@,
            requested_model,
        )
    } else if list.len() == 1 {
        select_on_route(table.routes, list[0].0, list[0].1, requested_model)
    } else if list.len() > 1 {
        Err(
            FailureV::Text(
                "模型 "@ + requested_model + " 同时存在于多条线路，缺少明确的 Codey 线路元数据"@,
            ),
        )
    } else {
        Err(FailureV::Text("模型未在线路路由表中启用："@ + requested_model))
    }
}

/// The route for what a request names: a selector of a route and a model; a model's own id; or a
/// selector of the past, by the model that it stood for.
pub open spec fn select_route(
    table: SnapshotV,
    history: Seq<(Seq<char>, Seq<char>)>,
    requested: Seq<char>,
    route_hint: Option<Seq<char>>,
    bound_route: Option<Seq<char>>,
) -> Result<SelectionV, FailureV> {
    let model = trim(requested);
    let past = lookup(history, model_key(trim(model)));
    if model.len() == 0 {
        Err(FailureV::Text("请求缺少 model 字段"@))
    } else if lookup(table.aliases, model_key(model)) is Some {
        let alias = lookup(table.aliases, model_key(model))->0;
        select_on_route(table.routes, alias.0, alias.1, model)
    } else if lookup(table.raw_models, model_key(model)) is None && past is Some {
        match select_raw(table, past->0, route_hint, bound_route, model) {
            Ok(s) => Ok(s),
            Err(FailureV::Text(words)) => Err(
                FailureV::Text(
                    "历史线路已不可用："@ + model + "；请为模型 "@ + past->0 + " 选择可用线路"@ + (": "@
                        + words),
                ),
            ),
            Err(e) => Err(e),
        }
    } else {
        select_raw(table, model, route_hint, bound_route, model)
    }
}

/// The route for a request that names no model: the hinted one, the bound one, or that of the
/// default model.
pub open spec fn select_auxiliary(
    table: SnapshotV,
    history: Seq<(Seq<char>, Seq<char>)>,
    default_model: Seq<char>,
    route_hint: Option<Seq<char>>,
    bound_route: Option<Seq<char>>,
) -> Result<Seq<char>, FailureV> {
    if route_hint matches Some(h) && lookup(table.routes, h) is Some {
        Ok(route_hint->0)
    } else if bound_route matches Some(b) && lookup(table.routes, b) is Some {
        Ok(bound_route->0)
    } else {
        match select_route(table, history, trim(default_model), None, None) {
            Ok(s) => Ok(s.provider_id),
            Err(e) => Err(e),
        }
    }
}

fn find_candidate<'a>(list: &'a Vec<AliasTarget>, provider_id: &str) -> (r: Option<&'a AliasTarget>)
    ensures
        target_view(r) == candidate_on(target_list(list@), provider_id@),
{
    let ghost all = target_list(list@);
    let mut i: usize = 0;
    proof {
        assert(all.subrange(0, all.len() as int) =~= all);
    }
    while i < list.len()
        invariant
            i <= list.len(),
            all == target_list(list@),
            candidate_on(all, provider_id@) == candidate_on(
                all.subrange(i as int, all.len() as int),
                provider_id@,
            ),
        decreases list.len() - i,
    {
        proof {
            let rest = all.subrange(i as int, all.len() as int);
            assert(rest[0] == list@[i as int]@);
            assert(rest.subrange(1, rest.len() as int) =~= all.subrange(i + 1, all.len() as int));
        }
        if str_eq(list[i].provider_id.as_str(), provider_id) {
            return Some(&list[i]);
        }
        i = i + 1;
    }
    None
}

pub open spec fn target_list(list: Seq<AliasTarget>) -> Seq<(Seq<char>, Seq<char>)> {
    Seq::new(list.len(), |i: int| list[i]@)
}

pub open spec fn target_view(r: Option<&AliasTarget>) -> Option<(Seq<char>, Seq<char>)> {
    match r {
        Some(t) => Some(t@),
        None => None,
    }
}

/// Every route stands under its own identifier.
pub open spec fn keyed_by_provider(routes: Seq<(Seq<char>, RouteTargetV)>) -> bool {
    forall|id: Seq<char>|
        #![trigger lookup(routes, id)]
        lookup(routes, id) matches Some(route) ==> route.provider_id == id
}

proof fn lemma_keyed_after_set(routes: Seq<(Seq<char>, RouteTargetV)>, route: RouteTargetV)
    requires
        keyed_by_provider(routes),
    ensures
        keyed_by_provider(with_key(routes, route.provider_id, route)),
{
    let after = with_key(routes, route.provider_id, route);
    assert forall|id: Seq<char>| #![trigger lookup(after, id)]
        lookup(after, id) is Some implies (lookup(after, id)->0).provider_id == id by {
        set_then_look(routes, route.provider_id, route, id);
    }
}

impl RouterSnapshot {
    pub open spec fn inv(&self) -> bool {
        self.routes.inv() && self.aliases.inv() && self.raw_models.inv()
            && self.model_alias_history.inv() && keyed_by_provider(self.routes@)
    }

    pub open spec fn table(&self) -> SnapshotV {
        SnapshotV {
            routes: self.routes@,
            aliases: self.aliases@,
            raw_models: self.raw_models@,
        }
    }

    fn add_one_model(&mut self, provider_id: &str, model: &str)
        requires
            old(self).inv(),
        ensures
            final(self).inv(),
            final(self).table() == add_model(old(self).table(), provider_id@, model@),
            final(self).model_alias_history == old(self).model_alias_history,
            final(self).default_model == old(self).default_model,
    {
        let alias = model_alias(provider_id, model);
        self.aliases.insert(
            key(alias.as_str()).as_str(),
            AliasTarget { provider_id: provider_id.to_owned(), model: model.to_owned() },
        );
        let model_name = key(model);
        let mut list = match self.raw_models.get(model_name.as_str()) {
            Some(known) => copy_list(known),
            None => {
                let fresh = AliasList { targets: Vec::new() };
                proof {
                    assert(fresh@ =~= Seq::<(Seq<char>, Seq<char>)>::empty());
                }
                fresh
            },
        };
        let ghost before = list@;
        let target = AliasTarget { provider_id: provider_id.to_owned(), model: model.to_owned() };
        list.targets.push(target);
        proof {
            assert(list@ =~= before.push((provider_id@, model@)));
        }
        self.raw_models.insert(model_name.as_str(), list);
    }

    fn add_input(&mut self, input: &RouteInput, official_account_available: bool)
        requires
            old(self).inv(),
        ensures
            final(self).inv(),
            final(self).table() == add_route(
                old(self).table(),
                *input,
                official_account_available,
            ),
            final(self).model_alias_history == old(self).model_alias_history,
            final(self).default_model == old(self).default_model,
    {
        if !input.enabled || (input.official_account && !official_account_available) {
            return ;
        }
        if trimmed(input.provider_id.as_str()).as_str().is_empty() {
            return ;
        }
        if !input.official_account && input.base_url.as_str().is_empty() {
            return ;
        }
        let target = make_target(input);
        let ghost start = self.table();
        let mut i: usize = 0;
        while i < target.models.len()
            invariant
                i <= target.models.len(),
                self.inv(),
                self.table() == add_models(start, target@.provider_id, target@.models, i as int),
                self.model_alias_history == old(self).model_alias_history,
                self.default_model == old(self).default_model,
            decreases target.models.len() - i,
        {
            proof {
                assert(target@.models[i as int] == target.models@[i as int]@);
            }
            self.add_one_model(target.provider_id.as_str(), target.models[i].as_str());
            i = i + 1;
        }
        let provider_id = target.provider_id.clone();
        proof {
            lemma_keyed_after_set(self.routes@, target@);
        }
        self.routes.insert(provider_id.as_str(), target);
    }

    /// Makes the route table of a configuration.
    pub fn from_config(config: RouterConfig) -> (r: RouterSnapshot)
        requires
            config.model_alias_history.inv(),
        ensures
            r.inv(),
            r.table() == table_of(
                config.routes@,
                config.official_account_available,
                config.routes@.len() as int,
            ),
            texts(r.model_ids@) == ordered(first_spellings(r.table().raw_models)),
            r.model_alias_history@ == config.model_alias_history@,
            r.default_model@ == config.default_model@,
    {
        let routes = config.routes;
        let available = config.official_account_available;
        let mut r = RouterSnapshot {
            routes: TextMap::new(),
            aliases: TextMap::new(),
            raw_models: TextMap::new(),
            model_alias_history: config.model_alias_history,
            model_ids: Vec::new(),
            default_model: config.default_model,
        };
        let mut i: usize = 0;
        while i < routes.len()
            invariant
                i <= routes.len(),
                r.inv(),
                r.table() == table_of(routes@, available, i as int),
                r.model_alias_history == config.model_alias_history,
                r.default_model == config.default_model,
            decreases routes.len() - i,
        {
            r.add_input(&routes[i], available);
            i = i + 1;
        }
        let mut ids: Vec<String> = Vec::new();
        let ghost raw = r.raw_models@;
        let mut k: usize = 0;
        proof {
            assert(texts(ids@) =~= first_spellings(raw.subrange(0, 0)));
        }
        while k < r.raw_models.len()
            invariant
                k <= raw.len(),
                raw == r.raw_models@,
                texts(ids@) == first_spellings(raw.subrange(0, k as int)),
            decreases raw.len() - k,
        {
            proof {
                assert(raw.subrange(0, k + 1).drop_last() =~= raw.subrange(0, k as int));
                assert(raw.subrange(0, k + 1).last() == raw[k as int]);
            }
            let list = r.raw_models.value_at(k);
            if list.targets.len() > 0 {
                let id = list.targets[0].model.clone();
                proof {
                    assert(list@[0] == list.targets@[0]@);
                    texts_push(ids@, id);
                }
                ids.push(id);
            }
            k = k + 1;
        }
        proof {
            assert(raw.subrange(0, k as int) =~= raw);
        }
        r.model_ids = sort_texts(&ids);
        r
    }

    /// A model on a route, where the route is there and has the model.
    pub fn target_for_route_model(&self, provider_id: &str, model: &str, requested_model: &str) -> (r:
        Result<RouteSelection, Failure>)
        requires
            self.inv(),
        ensures
            selection_result(r) == select_on_route(
                self.routes@,
                provider_id@,
                model@,
                requested_model@,
            ),
    {
        match self.routes.get(provider_id) {
            None => Err(fail_with("线路已不存在：", provider_id)),
            Some(target) => {
                if !list_has(&target.models, model) {
                    return Err(
                        Failure::Text(
                            cat4("线路「", route_display_name(target), "」未启用模型 ", model),
                        ),
                    );
                }
                Ok(
                    RouteSelection {
                        provider_id: target.provider_id.clone(),
                        protocol: target.protocol,
                        requested_model: requested_model.to_owned(),
                        upstream_model: model.to_owned(),
                    },
                )
            },
        }
    }

    fn find_official<'a>(&self, list: &'a Vec<AliasTarget>) -> (r: Option<&'a AliasTarget>)
        requires
            self.inv(),
        ensures
            target_view(r) == official_candidate(self.routes@, target_list(list@)),
    {
        let ghost all = target_list(list@);
        let mut i: usize = 0;
        proof {
            assert(all.subrange(0, all.len() as int) =~= all);
        }
        while i < list.len()
            invariant
                i <= list.len(),
                self.inv(),
                all == target_list(list@),
                official_candidate(self.routes@, all) == official_candidate(
                    self.routes@,
                    all.subrange(i as int, all.len() as int),
                ),
            decreases list.len() - i,
        {
            proof {
                let rest = all.subrange(i as int, all.len() as int);
                assert(rest[0] == list@[i as int]@);
                assert(rest.subrange(1, rest.len() as int) =~= all.subrange(
                    i + 1,
                    all.len() as int,
                ));
            }
            if let Some(route) = self.routes.get(list[i].provider_id.as_str()) {
                if route.official_account {
                    return Some(&list[i]);
                }
            }
            i = i + 1;
        }
        None
    }

    fn find_reviewing(&self) -> (r: Option<&str>)
        ensures
            text_view(r) == reviewing_route(self.routes@),
    {
        let ghost all = self.routes@;
        let mut i: usize = 0;
        proof {
            assert(all.subrange(0, all.len() as int) =~= all);
        }
        while i < self.routes.len()
            invariant
                i <= all.len(),
                all == self.routes@,
                reviewing_route(all) == reviewing_route(
                    all.subrange(i as int, all.len() as int),
                ),
            decreases all.len() - i,
        {
            proof {
                let rest = all.subrange(i as int, all.len() as int);
                assert(rest[0] == all[i as int]);
                assert(rest.subrange(1, rest.len() as int) =~= all.subrange(
                    i + 1,
                    all.len() as int,
                ));
            }
            let t = self.routes.value_at(i);
            if t.official_account && list_has(&t.models, CODEX_AUTO_REVIEW_MODEL) {
                return Some(t.provider_id.as_str());
            }
            i = i + 1;
        }
        None
    }

    /// The route for a model's own id.
    pub fn resolve_raw_request(
        &self,
        model: &str,
        route_hint: Option<&str>,
        bound_route: Option<&str>,
        requested_model: &str,
    ) -> (r: Result<RouteSelection, Failure>)
        requires
            self.inv(),
        ensures
            selection_result(r) == select_raw(
                self.table(),
                model@,
                text_view(route_hint),
                text_view(bound_route),
                requested_model@,
            ),
    {
        let none: Vec<AliasTarget> = Vec::new();
        let list = match self.raw_models.get(key(model).as_str()) {
            Some(known) => &known.targets,
            None => &none,
        };
        proof {
            assert(target_list(list@) =~= candidates_for(self.raw_models@, model@));
        }
        if let Some(hint) = route_hint {
            if let Some(c) = find_candidate(list, hint) {
                return self.target_for_route_model(hint, c.model.as_str(), requested_model);
            }
        }
        let review = equal(model, CODEX_AUTO_REVIEW_MODEL);
        if !review {
            if let Some(c) = self.find_official(list) {
                return self.target_for_route_model(
                    c.provider_id.as_str(),
                    c.model.as_str(),
                    requested_model,
                );
            }
        }
        if let Some(bound) = bound_route {
            if let Some(c) = find_candidate(list, bound) {
                return self.target_for_route_model(bound, c.model.as_str(), requested_model);
            }
        }
        if review {
            if let Some(provider_id) = self.find_reviewing() {
                return self.target_for_route_model(
                    provider_id,
                    CODEX_AUTO_REVIEW_MODEL,
                    requested_model,
                );
            }
        }
        if list.len() == 1 {
            return self.target_for_route_model(
                list[0].provider_id.as_str(),
                list[0].model.as_str(),
                requested_model,
            );
        }
        if list.len() > 1 {
            return Err(
                Failure::Text(
                    cat3("模型 ", requested_model, " 同时存在于多条线路，缺少明确的 Codey 线路元数据"),
                ),
            );
        }
        Err(fail_with("模型未在线路路由表中启用：", requested_model))
    }

    /// The route for what a request names.
    pub fn resolve_request(
        &self,
        requested: &str,
        route_hint: Option<&str>,
        bound_route: Option<&str>,
    ) -> (r: Result<RouteSelection, Failure>)
        requires
            self.inv(),
        ensures
            selection_result(r) == select_route(
                self.table(),
                self.model_alias_history@,
                requested@,
                text_view(route_hint),
                text_view(bound_route),
            ),
    {
        let model = trimmed(requested);
        if model.as_str().is_empty() {
            return Err(fail("请求缺少 model 字段"));
        }
        if let Some(alias) = self.aliases.get(key(model.as_str()).as_str()) {
            return self.target_for_route_model(
                alias.provider_id.as_str(),
                alias.model.as_str(),
                model.as_str(),
            );
        }
        if !self.raw_models.has(key(model.as_str()).as_str()) {
            if let Some(source) = historical_source(model.as_str(), &self.model_alias_history) {
                return match self.resolve_raw_request(
                    source,
                    route_hint,
                    bound_route,
                    model.as_str(),
                ) {
                    Ok(s) => Ok(s),
                    Err(Failure::Text(words)) => Err(
                        Failure::Text(
                            cat2(
                                cat5(
                                    "历史线路已不可用：",
                                    model.as_str(),
                                    "；请为模型 ",
                                    source,
                                    " 选择可用线路",
                                ).as_str(),
                                cat2(": ", words.as_str()).as_str(),
                            ),
                        ),
                    ),
                    Err(e) => Err(e),
                };
            }
        }
        self.resolve_raw_request(model.as_str(), route_hint, bound_route, model.as_str())
    }

    /// The route for a request that names no model.
    pub fn target_for_auxiliary_request(
        &self,
        route_hint: Option<&str>,
        bound_route: Option<&str>,
    ) -> (r: Result<String, Failure>)
        requires
            self.inv(),
        ensures
            match r {
                Ok(id) => select_auxiliary(
                    self.table(),
                    self.model_alias_history@,
                    self.default_model@,
                    text_view(route_hint),
                    text_view(bound_route),
                ) == Ok::<Seq<char>, FailureV>(id@),
                Err(e) => select_auxiliary(
                    self.table(),
                    self.model_alias_history@,
                    self.default_model@,
                    text_view(route_hint),
                    text_view(bound_route),
                ) == Err::<Seq<char>, FailureV>(e@),
            },
    {
        if let Some(hint) = route_hint {
            if self.routes.has(hint) {
                return Ok(hint.to_owned());
            }
        }
        if let Some(bound) = bound_route {
            if self.routes.has(bound) {
                return Ok(bound.to_owned());
            }
        }
        let model = trimmed(self.default_model.as_str());
        match self.resolve_request(model.as_str(), None, None) {
            Ok(s) => Ok(s.provider_id),
            Err(e) => Err(e),
        }
    }
}

fn copy_list(list: &AliasList) -> (r: AliasList)
    ensures
        r@ == list@,
{
    let mut targets: Vec<AliasTarget> = Vec::new();
    let mut i: usize = 0;
    while i < list.targets.len()
        invariant
            i <= list.targets.len(),
            target_list(targets@) == list@.subrange(0, i as int),
        decreases list.targets.len() - i,
    {
        let t = AliasTarget {
            provider_id: list.targets[i].provider_id.clone(),
            model: list.targets[i].model.clone(),
        };
        let ghost before = targets@;
        targets.push(t);
        i = i + 1;
        proof {
            assert(target_list(targets@) =~= target_list(before).push(list@[i - 1]));
            assert(target_list(targets@) =~= list@.subrange(0, i as int));
        }
    }
    let r = AliasList { targets };
    proof {
        assert(r@ =~= list@);
    }
    r
}

/// A request is given only a route that is there and has the model that goes upstream.
pub proof fn a_selected_route_has_the_model(
    table: SnapshotV,
    history: Seq<(Seq<char>, Seq<char>)>,
    requested: Seq<char>,
    route_hint: Option<Seq<char>>,
    bound_route: Option<Seq<char>>,
)
    requires
        select_route(table, history, requested, route_hint, bound_route) is Ok,
    ensures
        ({
            let s = select_route(table, history, requested, route_hint, bound_route)->Ok_0;
            exists|id: Seq<char>| #[trigger]
                lookup(table.routes, id) matches Some(t) && t.models.contains(s.upstream_model)
                    && t.provider_id == s.provider_id && t.protocol == s.protocol
        }),
{
}

/// A selector names its route: neither a hint nor the route that a conversation is bound to can
/// redirect it.
pub proof fn a_selector_is_not_redirected(
    table: SnapshotV,
    history: Seq<(Seq<char>, Seq<char>)>,
    requested: Seq<char>,
    hint: Option<Seq<char>>,
    bound: Option<Seq<char>>,
    other_hint: Option<Seq<char>>,
    other_bound: Option<Seq<char>>,
)
    requires
        lookup(table.aliases, model_key(trim(requested))) is Some,
    ensures
        select_route(table, history, requested, hint, bound) == select_route(
            table,
            history,
            requested,
            other_hint,
            other_bound,
        ),
{
}

/// Among several routes that have a model none is guessed: without a hint, a binding or an
/// official account the request fails.
pub proof fn several_routes_are_not_guessed(
    table: SnapshotV,
    model: Seq<char>,
    hint: Option<Seq<char>>,
    bound: Option<Seq<char>>,
    requested: Seq<char>,
)
    requires
        candidates_for(table.raw_models, model).len() > 1,
        hinted(candidates_for(table.raw_models, model), hint) is None,
        hinted(candidates_for(table.raw_models, model), bound) is None,
        official_candidate(table.routes, candidates_for(table.raw_models, model)) is None,
        model_key(model) != model_key(CODEX_AUTO_REVIEW_MODEL@),
    ensures
        select_raw(table, model, hint, bound, requested) is Err,
{
}

/// The key of a model's id: without white space around it, in lower case.
pub open spec fn folded(model: Seq<char>) -> Seq<char> {
    lower(trim(model))
}

/// A route of the configuration that can be used: it is enabled, it has an id and, unless it is an
/// official account's, an address; and an official account is there.
pub open spec fn in_use(inputs: Seq<RouteInput>, account: bool, i: int) -> bool {
    &&& 0 <= i < inputs.len()
    &&& inputs[i].enabled
    &&& trim(inputs[i].provider_id@).len() > 0
    &&& if inputs[i].official_account {
        account
    } else {
        inputs[i].base_url@.len() > 0
    }
}

/// The id of a route.
pub open spec fn route_id(inputs: Seq<RouteInput>, i: int) -> Seq<char> {
    trim(inputs[i].provider_id@)
}

/// The route has a model under this spelling: it is enabled on it, or it is the review model and the
/// route reviews.
pub open spec fn spells(input: RouteInput, model: Seq<char>) -> bool {
    ||| exists|j: int| 0 <= j < input.models@.len() && (#[trigger] input.models@[j])@ == model
    ||| {
        &&& input.official_account || input.supports_auto_review
        &&& model == CODEX_AUTO_REVIEW_MODEL@
        &&& forall|j: int|
            0 <= j < input.models@.len() ==> lower((#[trigger] input.models@[j])@) != lower(
                CODEX_AUTO_REVIEW_MODEL@,
            )
    }
}

/// A route that can be used has the model, under whatever spelling.
pub open spec fn serves(inputs: Seq<RouteInput>, account: bool, i: int, model: Seq<char>) -> bool {
    in_use(inputs, account, i) && exists|m: Seq<char>| #[trigger]
        spells(inputs[i], m) && folded(m) == folded(model)
}

/// No two routes that can be used have one id.
pub open spec fn ids_differ(inputs: Seq<RouteInput>, account: bool) -> bool {
    forall|i: int, j: int|
        in_use(inputs, account, i) && in_use(inputs, account, j) && i != j ==> #[trigger] route_id(
            inputs,
            i,
        ) != #[trigger] route_id(inputs, j)
}

/// The text is a selector: it names a route and a model of it.
pub open spec fn is_selector(inputs: Seq<RouteInput>, account: bool, text: Seq<char>) -> bool {
    exists|i: int, m: Seq<char>|
        in_use(inputs, account, i) && #[trigger] spells(inputs[i], m) && folded(
            alias_of(route_id(inputs, i), m),
        ) == folded(text)
}

/// The routes and models of a configuration.
pub open spec fn whole_table(inputs: Seq<RouteInput>, account: bool) -> SnapshotV {
    table_of(inputs, account, inputs.len() as int)
}

/// The selection is that of a route of the configuration, for a model of it that is the one asked
/// for.
pub open spec fn is_given(
    inputs: Seq<RouteInput>,
    i: int,
    model: Seq<char>,
    requested: Seq<char>,
    given: Result<SelectionV, FailureV>,
) -> bool {
    given matches Ok(s) && {
        &&& s.provider_id == route_id(inputs, i)
        &&& s.protocol == inputs[i].protocol
        &&& s.requested_model == requested
        &&& spells(inputs[i], s.upstream_model)
        &&& folded(s.upstream_model) == folded(model)
    }
}

spec fn own_candidates(id: Seq<char>, models: Seq<Seq<char>>, k: int, model: Seq<char>) -> Seq<
    (Seq<char>, Seq<char>),
>
    decreases k,
{
    if k <= 0 {
        Seq::empty()
    } else {
        let rest = own_candidates(id, models, k - 1, model);
        if folded(models[k - 1]) == folded(model) {
            rest.push((id, models[k - 1]))
        } else {
            rest
        }
    }
}

spec fn own_of(inputs: Seq<RouteInput>, account: bool, i: int, model: Seq<char>) -> Seq<
    (Seq<char>, Seq<char>),
> {
    if in_use(inputs, account, i) {
        let models = target_of(inputs[i]).models;
        own_candidates(route_id(inputs, i), models, models.len() as int, model)
    } else {
        Seq::empty()
    }
}

spec fn all_candidates(inputs: Seq<RouteInput>, account: bool, n: int, model: Seq<char>) -> Seq<
    (Seq<char>, Seq<char>),
>
    decreases n,
{
    if n <= 0 {
        Seq::empty()
    } else {
        all_candidates(inputs, account, n - 1, model) + own_of(inputs, account, n - 1, model)
    }
}

proof fn lemma_models_are_spelled(input: RouteInput, model: Seq<char>)
    ensures
        target_of(input).models.contains(model) <==> spells(input, model),
{
    let listed = texts(input.models@);
    let models = target_of(input).models;
    assert forall|j: int| 0 <= j < listed.len() implies #[trigger] listed[j] == input.models@[j]@ by {}
    let reviewed = exists|i: int|
        0 <= i < listed.len() && same_ignoring_case(#[trigger] listed[i], CODEX_AUTO_REVIEW_MODEL@);
    if reviewed {
        let i = choose|i: int|
            0 <= i < listed.len() && same_ignoring_case(
                #[trigger] listed[i],
                CODEX_AUTO_REVIEW_MODEL@,
            );
        assert(lower(input.models@[i]@) == lower(CODEX_AUTO_REVIEW_MODEL@));
    } else {
        assert forall|j: int| 0 <= j < input.models@.len() implies lower(
            (#[trigger] input.models@[j])@,
        ) != lower(CODEX_AUTO_REVIEW_MODEL@) by {
            assert(!same_ignoring_case(listed[j], CODEX_AUTO_REVIEW_MODEL@));
        }
    }
    if models.contains(model) {
        let k = choose|k: int| 0 <= k < models.len() && models[k] == model;
        if k < listed.len() {
            assert(models[k] == listed[k]);
            assert(input.models@[k]@ == model);
        }
    }
    if spells(input, model) {
        if exists|j: int| 0 <= j < input.models@.len() && (#[trigger] input.models@[j])@ == model {
            let j = choose|j: int|
                0 <= j < input.models@.len() && (#[trigger] input.models@[j])@ == model;
            assert(listed[j] == model);
            assert(models[j] == model);
        } else {
            assert(models == listed.push(CODEX_AUTO_REVIEW_MODEL@));
            assert(models[listed.len() as int] == model);
        }
    }
}

proof fn lemma_in_use(inputs: Seq<RouteInput>, account: bool, i: int)
    requires
        0 <= i < inputs.len(),
    ensures
        usable(inputs[i], account) <==> in_use(inputs, account, i),
{
}

proof fn lemma_added_models(
    table: SnapshotV,
    id: Seq<char>,
    models: Seq<Seq<char>>,
    k: int,
    model: Seq<char>,
)
    requires
        0 <= k <= models.len(),
    ensures
        candidates_for(add_models(table, id, models, k).raw_models, model) == candidates_for(
            table.raw_models,
            model,
        ) + own_candidates(id, models, k, model),
        lookup(add_models(table, id, models, k).raw_models, folded(model)) is Some <==> (lookup(
            table.raw_models,
            folded(model),
        ) is Some || own_candidates(id, models, k, model).len() > 0),
        add_models(table, id, models, k).routes == table.routes,
    decreases k,
{
    let start = candidates_for(table.raw_models, model);
    if k == 0 {
        assert(start + Seq::<(Seq<char>, Seq<char>)>::empty() =~= start);
    } else {
        lemma_added_models(table, id, models, k - 1, model);
        let before = add_models(table, id, models, k - 1);
        let m = models[k - 1];
        let known = match lookup(before.raw_models, model_key(m)) {
            Some(list) => list,
            None => Seq::empty(),
        };
        set_then_look(before.raw_models, model_key(m), known.push((id, m)), folded(model));
        let own = own_candidates(id, models, k - 1, model);
        if folded(m) == folded(model) {
            assert((start + own).push((id, m)) =~= start + own.push((id, m)));
        }
    }
}

proof fn lemma_candidates(inputs: Seq<RouteInput>, account: bool, n: int, model: Seq<char>)
    requires
        0 <= n <= inputs.len(),
    ensures
        candidates_for(table_of(inputs, account, n).raw_models, model) == all_candidates(
            inputs,
            account,
            n,
            model,
        ),
        lookup(table_of(inputs, account, n).raw_models, folded(model)) is Some <==> all_candidates(
            inputs,
            account,
            n,
            model,
        ).len() > 0,
    decreases n,
{
    if n > 0 {
        lemma_candidates(inputs, account, n - 1, model);
        lemma_in_use(inputs, account, n - 1);
        let before = table_of(inputs, account, n - 1);
        let target = target_of(inputs[n - 1]);
        lemma_added_models(
            before,
            target.provider_id,
            target.models,
            target.models.len() as int,
            model,
        );
        let rest = all_candidates(inputs, account, n - 1, model);
        assert(rest + Seq::<(Seq<char>, Seq<char>)>::empty() =~= rest);
    }
}

proof fn lemma_own(id: Seq<char>, models: Seq<Seq<char>>, k: int, model: Seq<char>)
    requires
        0 <= k <= models.len(),
    ensures
        forall|q: int|
            0 <= q < own_candidates(id, models, k, model).len() ==> {
                let c = #[trigger] own_candidates(id, models, k, model)[q];
                c.0 == id && models.contains(c.1) && folded(c.1) == folded(model)
            },
        own_candidates(id, models, k, model).len() > 0 <==> exists|j: int|
            0 <= j < k && folded(#[trigger] models[j]) == folded(model),
    decreases k,
{
    if k > 0 {
        lemma_own(id, models, k - 1, model);
        let before = own_candidates(id, models, k - 1, model);
        let after = own_candidates(id, models, k, model);
        assert forall|q: int| 0 <= q < after.len() implies {
            let c = #[trigger] after[q];
            c.0 == id && models.contains(c.1) && folded(c.1) == folded(model)
        } by {
            if q < before.len() {
                assert(after[q] == before[q]);
            } else {
                assert(models[k - 1] == after[q].1);
            }
        }
        if before.len() > 0 {
            let j = choose|j: int|
                0 <= j < k - 1 && folded(#[trigger] models[j]) == folded(model);
            assert(folded(models[j]) == folded(model));
        }
    }
}

proof fn lemma_own_of(inputs: Seq<RouteInput>, account: bool, i: int, model: Seq<char>)
    requires
        0 <= i < inputs.len(),
    ensures
        own_of(inputs, account, i, model).len() > 0 <==> serves(inputs, account, i, model),
        forall|q: int|
            0 <= q < own_of(inputs, account, i, model).len() ==> {
                let c = #[trigger] own_of(inputs, account, i, model)[q];
                c.0 == route_id(inputs, i) && spells(inputs[i], c.1) && folded(c.1) == folded(
                    model,
                )
            },
{
    let models = target_of(inputs[i]).models;
    if in_use(inputs, account, i) {
        lemma_own(route_id(inputs, i), models, models.len() as int, model);
        let own = own_of(inputs, account, i, model);
        assert forall|q: int| 0 <= q < own.len() implies {
            let c = #[trigger] own[q];
            c.0 == route_id(inputs, i) && spells(inputs[i], c.1) && folded(c.1) == folded(model)
        } by {
            lemma_models_are_spelled(inputs[i], own[q].1);
        }
        if own.len() > 0 {
            assert(spells(inputs[i], own[0].1));
        }
        if serves(inputs, account, i, model) {
            let m = choose|m: Seq<char>| #[trigger]
                spells(inputs[i], m) && folded(m) == folded(model);
            lemma_models_are_spelled(inputs[i], m);
            let j = choose|j: int| 0 <= j < models.len() && models[j] == m;
            assert(folded(models[j]) == folded(model));
        }
    }
}

proof fn lemma_found(list: Seq<(Seq<char>, Seq<char>)>, id: Seq<char>)
    ensures
        candidate_on(list, id) is Some <==> exists|q: int|
            0 <= q < list.len() && (#[trigger] list[q]).0 == id,
        candidate_on(list, id) matches Some(c) ==> c.0 == id && list.contains(c),
    decreases list.len(),
{
    if list.len() > 0 && list[0].0 != id {
        let rest = list.subrange(1, list.len() as int);
        lemma_found(rest, id);
        if candidate_on(rest, id) is Some {
            let c = candidate_on(rest, id)->0;
            let q = choose|q: int| 0 <= q < rest.len() && rest[q] == c;
            assert(list[q + 1] == c);
            assert(list[q + 1].0 == id);
        }
        if exists|q: int| 0 <= q < list.len() && (#[trigger] list[q]).0 == id {
            let q = choose|q: int| 0 <= q < list.len() && (#[trigger] list[q]).0 == id;
            assert(rest[q - 1].0 == id);
        }
    } else if list.len() > 0 {
        assert(list[0].0 == id);
    }
}

/// Every candidate is that of a route which has the model, and every such route is a candidate.
proof fn lemma_all_candidates(inputs: Seq<RouteInput>, account: bool, n: int, model: Seq<char>)
    requires
        0 <= n <= inputs.len(),
    ensures
        forall|q: int|
            0 <= q < all_candidates(inputs, account, n, model).len() ==> has_owner(
                inputs,
                account,
                n,
                model,
                #[trigger] all_candidates(inputs, account, n, model)[q],
            ),
        forall|i: int|
            0 <= i < n && #[trigger] serves(inputs, account, i, model) ==> exists|q: int|
                0 <= q < all_candidates(inputs, account, n, model).len() && (
                #[trigger] all_candidates(inputs, account, n, model)[q]).0 == route_id(inputs, i),
    decreases n,
{
    if n > 0 {
        lemma_all_candidates(inputs, account, n - 1, model);
        lemma_own_of(inputs, account, n - 1, model);
        let before = all_candidates(inputs, account, n - 1, model);
        let own = own_of(inputs, account, n - 1, model);
        let all = all_candidates(inputs, account, n, model);
        assert forall|q: int| 0 <= q < all.len() implies has_owner(
            inputs,
            account,
            n,
            model,
            #[trigger] all[q],
        ) by {
            if q < before.len() {
                assert(all[q] == before[q]);
                let m = n - 1;
                let c = before[q];
                let i = choose|i: int| #[trigger] is_candidate_of(inputs, account, m, i, model, c);
                assert(is_candidate_of(inputs, account, n, i, model, all[q]));
            } else {
                assert(all[q] == own[q - before.len()]);
                assert(own.len() > 0);
                assert(is_candidate_of(inputs, account, n, n - 1, model, all[q]));
            }
        }
        assert forall|i: int|
            0 <= i < n && #[trigger] serves(inputs, account, i, model) implies exists|q: int|
            0 <= q < all.len() && (#[trigger] all[q]).0 == route_id(inputs, i) by {
            if i < n - 1 {
                let q = choose|q: int|
                    0 <= q < before.len() && (#[trigger] before[q]).0 == route_id(inputs, i);
                assert(all[q] == before[q]);
            } else {
                assert(all[before.len() as int] == own[0]);
            }
        }
    }
}

spec fn has_owner(
    inputs: Seq<RouteInput>,
    account: bool,
    n: int,
    model: Seq<char>,
    c: (Seq<char>, Seq<char>),
) -> bool {
    exists|i: int| #[trigger] is_candidate_of(inputs, account, n, i, model, c)
}

spec fn is_candidate_of(
    inputs: Seq<RouteInput>,
    account: bool,
    n: int,
    i: int,
    model: Seq<char>,
    c: (Seq<char>, Seq<char>),
) -> bool {
    &&& 0 <= i < n
    &&& serves(inputs, account, i, model)
    &&& c.0 == route_id(inputs, i)
    &&& spells(inputs[i], c.1)
    &&& folded(c.1) == folded(model)
}

proof fn lemma_routes(inputs: Seq<RouteInput>, account: bool, n: int, i: int)
    requires
        0 <= n <= inputs.len(),
        in_use(inputs, account, i),
        i < n,
        forall|j: int|
            in_use(inputs, account, j) && j != i ==> #[trigger] route_id(inputs, j) != route_id(
                inputs,
                i,
            ),
    ensures
        lookup(table_of(inputs, account, n).routes, route_id(inputs, i)) == Some(
            target_of(inputs[i]),
        ),
    decreases n,
{
    lemma_in_use(inputs, account, n - 1);
    let before = table_of(inputs, account, n - 1);
    let target = target_of(inputs[n - 1]);
    lemma_added_models(
        before,
        target.provider_id,
        target.models,
        target.models.len() as int,
        Seq::empty(),
    );
    set_then_look(before.routes, target.provider_id, target, route_id(inputs, i));
    if i < n - 1 {
        lemma_routes(inputs, account, n - 1, i);
        if in_use(inputs, account, n - 1) {
            assert(route_id(inputs, n - 1) != route_id(inputs, i));
        }
    }
}

proof fn lemma_no_selector(inputs: Seq<RouteInput>, account: bool, n: int, text: Seq<char>)
    requires
        0 <= n <= inputs.len(),
        !is_selector(inputs, account, text),
    ensures
        lookup(table_of(inputs, account, n).aliases, folded(text)) is None,
    decreases n,
{
    if n > 0 {
        lemma_no_selector(inputs, account, n - 1, text);
        lemma_in_use(inputs, account, n - 1);
        if in_use(inputs, account, n - 1) {
            let target = target_of(inputs[n - 1]);
            lemma_no_selector_added(
                inputs,
                account,
                n - 1,
                table_of(inputs, account, n - 1),
                target.models.len() as int,
                text,
            );
        }
    }
}

proof fn lemma_no_selector_added(
    inputs: Seq<RouteInput>,
    account: bool,
    i: int,
    table: SnapshotV,
    k: int,
    text: Seq<char>,
)
    requires
        in_use(inputs, account, i),
        0 <= k <= target_of(inputs[i]).models.len(),
        lookup(table.aliases, folded(text)) is None,
        !is_selector(inputs, account, text),
    ensures
        lookup(
            add_models(table, route_id(inputs, i), target_of(inputs[i]).models, k).aliases,
            folded(text),
        ) is None,
    decreases k,
{
    if k > 0 {
        lemma_no_selector_added(inputs, account, i, table, k - 1, text);
        let models = target_of(inputs[i]).models;
        let before = add_models(table, route_id(inputs, i), models, k - 1);
        let m = models[k - 1];
        lemma_models_are_spelled(inputs[i], m);
        assert(models.contains(m));
        assert(spells(inputs[i], m));
        set_then_look(
            before.aliases,
            model_key(alias_of(route_id(inputs, i), m)),
            (route_id(inputs, i), m),
            folded(text),
        );
    }
}

proof fn lemma_select(
    inputs: Seq<RouteInput>,
    account: bool,
    i: int,
    model: Seq<char>,
    upstream: Seq<char>,
    requested: Seq<char>,
)
    requires
        in_use(inputs, account, i),
        forall|j: int|
            in_use(inputs, account, j) && j != i ==> #[trigger] route_id(inputs, j) != route_id(
                inputs,
                i,
            ),
        spells(inputs[i], upstream),
        folded(upstream) == folded(model),
    ensures
        is_given(
            inputs,
            i,
            model,
            requested,
            select_on_route(
                whole_table(inputs, account).routes,
                route_id(inputs, i),
                upstream,
                requested,
            ),
        ),
{
    lemma_routes(inputs, account, inputs.len() as int, i);
    lemma_models_are_spelled(inputs[i], upstream);
}

/// The model that a request means by what it names: that model where a route has it, else the one
/// that was recorded for the name, where one was.
pub open spec fn meant_model(
    inputs: Seq<RouteInput>,
    account: bool,
    history: Seq<(Seq<char>, Seq<char>)>,
    requested: Seq<char>,
) -> Seq<char> {
    if exists|i: int| #[trigger] serves(inputs, account, i, requested) {
        requested
    } else {
        match lookup(history, folded(requested)) {
            Some(past) => past,
            None => requested,
        }
    }
}

/// A request that names a model, and no selector, is given the route that is looked for by the model
/// which it means.
proof fn lemma_by_model(
    inputs: Seq<RouteInput>,
    account: bool,
    history: Seq<(Seq<char>, Seq<char>)>,
    requested: Seq<char>,
    hint: Option<Seq<char>>,
    bound: Option<Seq<char>>,
)
    requires
        trim(requested).len() > 0,
        !is_selector(inputs, account, requested),
    ensures
        ({
            let table = whole_table(inputs, account);
            let chosen = select_route(table, history, requested, hint, bound);
            let meant = meant_model(inputs, account, history, requested);
            let found = select_raw(table, meant, hint, bound, trim(requested));
            (found is Ok ==> chosen == found) && (found is Err ==> chosen is Err)
        }),
{
    let n = inputs.len() as int;
    lemma_no_selector(inputs, account, n, requested);
    lemma_candidates(inputs, account, n, requested);
    lemma_all_candidates(inputs, account, n, requested);
    let list = all_candidates(inputs, account, n, requested);
    if exists|i: int| #[trigger] serves(inputs, account, i, requested) {
        let i = choose|i: int| #[trigger] serves(inputs, account, i, requested);
        assert(0 <= i < n);
        let q = choose|q: int| 0 <= q < list.len() && (#[trigger] list[q]).0 == route_id(inputs, i);
        assert(list.len() > 0);
    } else if list.len() > 0 {
        let c = list[0];
        assert(has_owner(inputs, account, n, requested, c));
        let i = choose|i: int| #[trigger] is_candidate_of(inputs, account, n, i, requested, c);
        assert(serves(inputs, account, i, requested));
    }
    lemma_by_meaning(whole_table(inputs, account), history, requested, hint, bound);
}

proof fn lemma_by_meaning(
    table: SnapshotV,
    history: Seq<(Seq<char>, Seq<char>)>,
    requested: Seq<char>,
    hint: Option<Seq<char>>,
    bound: Option<Seq<char>>,
)
    requires
        trim(requested).len() > 0,
        lookup(table.aliases, folded(requested)) is None,
    ensures
        ({
            let chosen = select_route(table, history, requested, hint, bound);
            let meant = if lookup(table.raw_models, folded(requested)) is Some {
                requested
            } else {
                match lookup(history, folded(requested)) {
                    Some(past) => past,
                    None => requested,
                }
            };
            let found = select_raw(table, meant, hint, bound, trim(requested));
            (found is Ok ==> chosen == found) && (found is Err ==> chosen is Err)
        }),
{
    let model = trim(requested);
    trim_leaves_clean_ends(requested);
    assert(model_key(model) == folded(requested));
    assert(model_key(trim(model)) == folded(requested));
    assert(candidates_for(table.raw_models, model) == candidates_for(
        table.raw_models,
        requested,
    ));
    assert(select_raw(table, model, hint, bound, model) == select_raw(
        table,
        requested,
        hint,
        bound,
        model,
    ));
}

/// A route that the user picked wins: where the hinted route can be used and has the model that the
/// request means, the request is sent there, whatever route the conversation is bound to and whatever
/// official account has the model.
pub proof fn a_picked_route_wins(
    inputs: Seq<RouteInput>,
    account: bool,
    history: Seq<(Seq<char>, Seq<char>)>,
    requested: Seq<char>,
    i: int,
    bound: Option<Seq<char>>,
)
    requires
        trim(requested).len() > 0,
        !is_selector(inputs, account, requested),
        serves(inputs, account, i, meant_model(inputs, account, history, requested)),
        forall|j: int|
            in_use(inputs, account, j) && j != i ==> #[trigger] route_id(inputs, j) != route_id(
                inputs,
                i,
            ),
    ensures
        is_given(
            inputs,
            i,
            meant_model(inputs, account, history, requested),
            trim(requested),
            select_route(
                whole_table(inputs, account),
                history,
                requested,
                Some(route_id(inputs, i)),
                bound,
            ),
        ),
{
    let n = inputs.len() as int;
    let model = meant_model(inputs, account, history, requested);
    lemma_by_model(inputs, account, history, requested, Some(route_id(inputs, i)), bound);
    lemma_on_route(inputs, account, i, model, trim(requested));
}

/// The candidate on a route that has the model is a model of that route.
proof fn lemma_on_route(
    inputs: Seq<RouteInput>,
    account: bool,
    i: int,
    model: Seq<char>,
    requested: Seq<char>,
)
    requires
        serves(inputs, account, i, model),
        forall|j: int|
            in_use(inputs, account, j) && j != i ==> #[trigger] route_id(inputs, j) != route_id(
                inputs,
                i,
            ),
    ensures
        ({
            let table = whole_table(inputs, account);
            let c = candidate_on(candidates_for(table.raw_models, model), route_id(inputs, i));
            c is Some && is_given(
                inputs,
                i,
                model,
                requested,
                select_on_route(table.routes, route_id(inputs, i), (c->0).1, requested),
            )
        }),
{
    let n = inputs.len() as int;
    lemma_candidates(inputs, account, n, model);
    lemma_all_candidates(inputs, account, n, model);
    let list = all_candidates(inputs, account, n, model);
    lemma_found(list, route_id(inputs, i));
    let c = candidate_on(list, route_id(inputs, i))->0;
    let q = choose|q: int| 0 <= q < list.len() && list[q] == c;
    let k = choose|k: int| #[trigger] is_candidate_of(inputs, account, n, k, model, list[q]);
    assert(in_use(inputs, account, k));
    assert(k == i);
    lemma_select(inputs, account, i, model, c.1, requested);
}

/// The hint picks no route that has the model.
pub open spec fn picks_none(
    inputs: Seq<RouteInput>,
    account: bool,
    model: Seq<char>,
    hint: Option<Seq<char>>,
) -> bool {
    forall|i: int| #[trigger]
        serves(inputs, account, i, model) ==> hint != Some(route_id(inputs, i))
}

proof fn lemma_picks_none(
    inputs: Seq<RouteInput>,
    account: bool,
    model: Seq<char>,
    hint: Option<Seq<char>>,
)
    requires
        picks_none(inputs, account, model, hint),
    ensures
        hinted(candidates_for(whole_table(inputs, account).raw_models, model), hint) is None,
{
    let n = inputs.len() as int;
    lemma_candidates(inputs, account, n, model);
    lemma_all_candidates(inputs, account, n, model);
    let list = all_candidates(inputs, account, n, model);
    if let Some(h) = hint {
        lemma_found(list, h);
        if exists|q: int| 0 <= q < list.len() && (#[trigger] list[q]).0 == h {
            let q = choose|q: int| 0 <= q < list.len() && (#[trigger] list[q]).0 == h;
            let k = choose|k: int| #[trigger] is_candidate_of(inputs, account, n, k, model, list[q]);
            assert(serves(inputs, account, k, model));
        }
    }
}

proof fn lemma_official_first(
    routes: Seq<(Seq<char>, RouteTargetV)>,
    a: Seq<(Seq<char>, Seq<char>)>,
    b: Seq<(Seq<char>, Seq<char>)>,
)
    ensures
        official_candidate(routes, a + b) == match official_candidate(routes, a) {
            Some(c) => Some(c),
            None => official_candidate(routes, b),
        },
    decreases a.len(),
{
    if a.len() == 0 {
        assert(a + b =~= b);
    } else {
        let rest = a.subrange(1, a.len() as int);
        lemma_official_first(routes, rest, b);
        assert((a + b).subrange(1, (a + b).len() as int) =~= rest + b);
    }
}

proof fn lemma_official_none(
    routes: Seq<(Seq<char>, RouteTargetV)>,
    list: Seq<(Seq<char>, Seq<char>)>,
)
    requires
        forall|q: int| 0 <= q < list.len() ==> !is_official(routes, (#[trigger] list[q]).0),
    ensures
        official_candidate(routes, list) is None,
    decreases list.len(),
{
    if list.len() > 0 {
        let rest = list.subrange(1, list.len() as int);
        assert forall|q: int| 0 <= q < rest.len() implies !is_official(
            routes,
            (#[trigger] rest[q]).0,
        ) by {
            assert(list[q + 1] == rest[q]);
        }
        lemma_official_none(routes, rest);
    }
}

/// The first official account in the configuration that has the model.
pub open spec fn is_first_official(
    inputs: Seq<RouteInput>,
    account: bool,
    model: Seq<char>,
    i: int,
) -> bool {
    &&& serves(inputs, account, i, model) && inputs[i].official_account
    &&& forall|j: int|
        0 <= j < i && #[trigger] serves(inputs, account, j, model) ==> !inputs[j].official_account
}

proof fn lemma_official_of(inputs: Seq<RouteInput>, account: bool, n: int, model: Seq<char>)
    requires
        0 <= n <= inputs.len(),
        ids_differ(inputs, account),
    ensures
        ({
            let routes = whole_table(inputs, account).routes;
            let found = official_candidate(routes, all_candidates(inputs, account, n, model));
            match found {
                Some(c) => exists|i: int|
                    i < n && is_first_official(inputs, account, model, i) && c.0 == route_id(
                        inputs,
                        i,
                    ) && spells(inputs[i], c.1) && folded(c.1) == folded(model),
                None => forall|i: int|
                    0 <= i < n && #[trigger] serves(inputs, account, i, model)
                        ==> !inputs[i].official_account,
            }
        }),
    decreases n,
{
    if n > 0 {
        let routes = whole_table(inputs, account).routes;
        let i = n - 1;
        lemma_official_of(inputs, account, i, model);
        let before = all_candidates(inputs, account, i, model);
        let own = own_of(inputs, account, i, model);
        lemma_own_of(inputs, account, i, model);
        lemma_official_first(routes, before, own);
        if official_candidate(routes, before) is None {
            if serves(inputs, account, i, model) {
                assert forall|j: int|
                    in_use(inputs, account, j) && j != i implies #[trigger] route_id(inputs, j)
                    != route_id(inputs, i) by {}
                lemma_routes(inputs, account, inputs.len() as int, i);
                if inputs[i].official_account {
                    assert(own[0].0 == route_id(inputs, i));
                    assert(official_candidate(routes, own) == Some(own[0]));
                    assert(is_first_official(inputs, account, model, i));
                } else {
                    assert forall|q: int| 0 <= q < own.len() implies !is_official(
                        routes,
                        (#[trigger] own[q]).0,
                    ) by {}
                    lemma_official_none(routes, own);
                }
            } else {
                lemma_official_none(routes, own);
            }
        } else {
            let c = official_candidate(routes, before)->0;
            let k = choose|k: int|
                k < i && is_first_official(inputs, account, model, k) && c.0 == route_id(inputs, k)
                    && spells(inputs[k], c.1) && folded(c.1) == folded(model);
            assert(k < n && is_first_official(inputs, account, model, k));
        }
    }
}

proof fn lemma_no_official(inputs: Seq<RouteInput>, account: bool, model: Seq<char>)
    requires
        ids_differ(inputs, account),
        forall|i: int| #[trigger]
            serves(inputs, account, i, model) ==> !inputs[i].official_account,
    ensures
        ({
            let table = whole_table(inputs, account);
            official_candidate(table.routes, candidates_for(table.raw_models, model)) is None
        }),
{
    let n = inputs.len() as int;
    lemma_official_of(inputs, account, n, model);
    lemma_candidates(inputs, account, n, model);
    let table = whole_table(inputs, account);
    let found = official_candidate(table.routes, all_candidates(inputs, account, n, model));
    if found is Some {
        let c = found->0;
        let i = choose|i: int|
            i < n && is_first_official(inputs, account, model, i) && c.0 == route_id(inputs, i)
                && spells(inputs[i], c.1) && folded(c.1) == folded(model);
        assert(serves(inputs, account, i, model));
    }
}

/// Without a picked route that has it, a model goes to the first official account that has it,
/// whatever route the conversation is bound to. The review model is the exception.
pub proof fn an_official_account_comes_next(
    inputs: Seq<RouteInput>,
    account: bool,
    history: Seq<(Seq<char>, Seq<char>)>,
    requested: Seq<char>,
    hint: Option<Seq<char>>,
    bound: Option<Seq<char>>,
    i: int,
)
    requires
        trim(requested).len() > 0,
        !is_selector(inputs, account, requested),
        ids_differ(inputs, account),
        picks_none(
            inputs,
            account,
            meant_model(inputs, account, history, requested),
            hint,
        ),
        folded(meant_model(inputs, account, history, requested)) != folded(
            CODEX_AUTO_REVIEW_MODEL@,
        ),
        is_first_official(
            inputs,
            account,
            meant_model(inputs, account, history, requested),
            i,
        ),
    ensures
        is_given(
            inputs,
            i,
            meant_model(inputs, account, history, requested),
            trim(requested),
            select_route(whole_table(inputs, account), history, requested, hint, bound),
        ),
{
    let n = inputs.len() as int;
    let model = meant_model(inputs, account, history, requested);
    lemma_by_model(inputs, account, history, requested, hint, bound);
    lemma_picks_none(inputs, account, model, hint);
    lemma_candidates(inputs, account, n, model);
    lemma_official_of(inputs, account, n, model);
    let table = whole_table(inputs, account);
    let found = official_candidate(table.routes, all_candidates(inputs, account, n, model));
    assert(found is Some) by {
        assert(serves(inputs, account, i, model));
    }
    let c = found->0;
    let k = choose|k: int|
        k < n && is_first_official(inputs, account, model, k) && c.0 == route_id(inputs, k)
            && spells(inputs[k], c.1) && folded(c.1) == folded(model);
    assert(k == i) by {
        assert(serves(inputs, account, k, model) && serves(inputs, account, i, model));
    }
    assert forall|j: int| in_use(inputs, account, j) && j != i implies #[trigger] route_id(
        inputs,
        j,
    ) != route_id(inputs, i) by {}
    lemma_select(inputs, account, i, model, c.1, trim(requested));
}

/// No official account takes the model ahead of the conversation's route: none has it, or it is the
/// review model.
pub open spec fn no_official_ahead(inputs: Seq<RouteInput>, account: bool, model: Seq<char>) -> bool {
    folded(model) == folded(CODEX_AUTO_REVIEW_MODEL@) || forall|i: int| #[trigger]
        serves(inputs, account, i, model) ==> !inputs[i].official_account
}

/// Then a conversation stays on the route that it is bound to, where that route has the model.
pub proof fn a_conversation_stays_on_its_route(
    inputs: Seq<RouteInput>,
    account: bool,
    history: Seq<(Seq<char>, Seq<char>)>,
    requested: Seq<char>,
    hint: Option<Seq<char>>,
    i: int,
)
    requires
        trim(requested).len() > 0,
        !is_selector(inputs, account, requested),
        ids_differ(inputs, account),
        picks_none(
            inputs,
            account,
            meant_model(inputs, account, history, requested),
            hint,
        ),
        no_official_ahead(
            inputs,
            account,
            meant_model(inputs, account, history, requested),
        ),
        serves(inputs, account, i, meant_model(inputs, account, history, requested)),
    ensures
        is_given(
            inputs,
            i,
            meant_model(inputs, account, history, requested),
            trim(requested),
            select_route(
                whole_table(inputs, account),
                history,
                requested,
                hint,
                Some(route_id(inputs, i)),
            ),
        ),
{
    let model = meant_model(inputs, account, history, requested);
    let bound = Some(route_id(inputs, i));
    lemma_by_model(inputs, account, history, requested, hint, bound);
    lemma_picks_none(inputs, account, model, hint);
    if folded(model) != folded(CODEX_AUTO_REVIEW_MODEL@) {
        lemma_no_official(inputs, account, model);
    }
    assert forall|j: int| in_use(inputs, account, j) && j != i implies #[trigger] route_id(
        inputs,
        j,
    ) != route_id(inputs, i) by {}
    lemma_on_route(inputs, account, i, model, trim(requested));
}

proof fn lemma_only_own(
    inputs: Seq<RouteInput>,
    account: bool,
    n: int,
    i: int,
    model: Seq<char>,
)
    requires
        0 <= n <= inputs.len(),
        0 <= i < inputs.len(),
        forall|j: int| #[trigger] serves(inputs, account, j, model) ==> j == i,
    ensures
        all_candidates(inputs, account, n, model) == if i < n {
            own_of(inputs, account, i, model)
        } else {
            Seq::empty()
        },
    decreases n,
{
    if n > 0 {
        lemma_only_own(inputs, account, n - 1, i, model);
        lemma_own_of(inputs, account, n - 1, model);
        let none = Seq::<(Seq<char>, Seq<char>)>::empty();
        let own = own_of(inputs, account, n - 1, model);
        let before = all_candidates(inputs, account, n - 1, model);
        if n - 1 == i {
            assert(none + own =~= own);
        } else {
            assert(own =~= none);
            assert(before + none =~= before);
        }
    }
}

/// The route lists the model once.
pub open spec fn lists_once(input: RouteInput, model: Seq<char>) -> bool {
    forall|a: int, b: int|
        0 <= a < b < input.models@.len() ==> !(folded((#[trigger] input.models@[a])@) == folded(
            model,
        ) && folded((#[trigger] input.models@[b])@) == folded(model))
}

proof fn lemma_own_once(id: Seq<char>, models: Seq<Seq<char>>, k: int, model: Seq<char>)
    requires
        0 <= k <= models.len(),
        forall|a: int, b: int|
            0 <= a < b < models.len() ==> !(folded(#[trigger] models[a]) == folded(model)
                && folded(#[trigger] models[b]) == folded(model)),
    ensures
        own_candidates(id, models, k, model).len() <= 1,
    decreases k,
{
    if k > 0 {
        lemma_own_once(id, models, k - 1, model);
        lemma_own(id, models, k - 1, model);
        if own_candidates(id, models, k - 1, model).len() > 0 {
            let j = choose|j: int|
                0 <= j < k - 1 && folded(#[trigger] models[j]) == folded(model);
            assert(folded(models[k - 1]) != folded(model));
        }
    }
}

/// A model that only one route has goes there, whatever the hint and the binding say.
pub proof fn the_only_route_with_a_model_is_taken(
    inputs: Seq<RouteInput>,
    account: bool,
    history: Seq<(Seq<char>, Seq<char>)>,
    requested: Seq<char>,
    hint: Option<Seq<char>>,
    bound: Option<Seq<char>>,
    i: int,
)
    requires
        trim(requested).len() > 0,
        !is_selector(inputs, account, requested),
        ids_differ(inputs, account),
        folded(meant_model(inputs, account, history, requested)) != folded(
            CODEX_AUTO_REVIEW_MODEL@,
        ),
        serves(inputs, account, i, meant_model(inputs, account, history, requested)),
        forall|j: int| #[trigger]
            serves(inputs, account, j, meant_model(inputs, account, history, requested)) ==> j
                == i,
        lists_once(inputs[i], meant_model(inputs, account, history, requested)),
    ensures
        is_given(
            inputs,
            i,
            meant_model(inputs, account, history, requested),
            trim(requested),
            select_route(whole_table(inputs, account), history, requested, hint, bound),
        ),
{
    let n = inputs.len() as int;
    let model = meant_model(inputs, account, history, requested);
    if hint == Some(route_id(inputs, i)) {
        assert forall|j: int| in_use(inputs, account, j) && j != i implies #[trigger] route_id(
            inputs,
            j,
        ) != route_id(inputs, i) by {}
        a_picked_route_wins(inputs, account, history, requested, i, bound);
    } else if inputs[i].official_account {
        an_official_account_comes_next(
            inputs,
            account,
            history,
            requested,
            hint,
            bound,
            i,
        );
    } else if bound == Some(route_id(inputs, i)) {
        a_conversation_stays_on_its_route(inputs, account, history, requested, hint, i);
    } else {
        lemma_by_model(inputs, account, history, requested, hint, bound);
        lemma_picks_none(inputs, account, model, hint);
        lemma_picks_none(inputs, account, model, bound);
        lemma_no_official(inputs, account, model);
        lemma_candidates(inputs, account, n, model);
        lemma_only_own(inputs, account, n, i, model);
        lemma_own_of(inputs, account, i, model);
        let target = target_of(inputs[i]);
        let own = own_of(inputs, account, i, model);
        assert(own.len() == 1) by {
            let listed = texts(inputs[i].models@);
            assert forall|a: int, b: int| 0 <= a < b < target.models.len() implies !(folded(
                #[trigger] target.models[a],
            ) == folded(model) && folded(#[trigger] target.models[b]) == folded(model)) by {
                if b < listed.len() {
                    assert(target.models[a] == listed[a] && target.models[b] == listed[b]);
                    assert(listed[a] == inputs[i].models@[a]@ && listed[b]
                        == inputs[i].models@[b]@);
                } else {
                    assert(target.models[b] == CODEX_AUTO_REVIEW_MODEL@);
                }
            }
            lemma_own_once(
                route_id(inputs, i),
                target.models,
                target.models.len() as int,
                model,
            );
        }
        assert forall|j: int| in_use(inputs, account, j) && j != i implies #[trigger] route_id(
            inputs,
            j,
        ) != route_id(inputs, i) by {}
        assert(own[0].0 == route_id(inputs, i));
        lemma_select(inputs, account, i, model, own[0].1, trim(requested));
    }
}

/// A model that no route has, and that stands for no other in what was recorded, is not sent
/// anywhere. Nor is one that several routes have, where neither the hint nor the binding picks one of
/// them and none is an official account's: no route is guessed.
pub proof fn no_route_is_made_up(
    inputs: Seq<RouteInput>,
    account: bool,
    history: Seq<(Seq<char>, Seq<char>)>,
    requested: Seq<char>,
    hint: Option<Seq<char>>,
    bound: Option<Seq<char>>,
    i: int,
    j: int,
)
    requires
        trim(requested).len() > 0,
        !is_selector(inputs, account, requested),
        ids_differ(inputs, account),
        folded(meant_model(inputs, account, history, requested)) != folded(
            CODEX_AUTO_REVIEW_MODEL@,
        ),
        ({
            let model = meant_model(inputs, account, history, requested);
            ||| forall|k: int| !#[trigger] serves(inputs, account, k, model)
            ||| {
                &&& i < j
                &&& serves(inputs, account, i, model)
                &&& serves(inputs, account, j, model)
                &&& picks_none(inputs, account, model, hint)
                &&& picks_none(inputs, account, model, bound)
                &&& no_official_ahead(inputs, account, model)
            }
        }),
    ensures
        select_route(whole_table(inputs, account), history, requested, hint, bound) is Err,
{
    let n = inputs.len() as int;
    let model = meant_model(inputs, account, history, requested);
    lemma_by_model(inputs, account, history, requested, hint, bound);
    lemma_picks_none(inputs, account, model, hint);
    lemma_picks_none(inputs, account, model, bound);
    lemma_no_official(inputs, account, model);
    lemma_candidates(inputs, account, n, model);
    lemma_all_candidates(inputs, account, n, model);
    let list = all_candidates(inputs, account, n, model);
    if forall|k: int| !#[trigger] serves(inputs, account, k, model) {
        if list.len() > 0 {
            let c = list[0];
            let k = choose|k: int| #[trigger] is_candidate_of(inputs, account, n, k, model, list[0]);
            assert(serves(inputs, account, k, model));
        }
    } else {
        let a = choose|q: int| 0 <= q < list.len() && (#[trigger] list[q]).0 == route_id(inputs, i);
        let b = choose|q: int| 0 <= q < list.len() && (#[trigger] list[q]).0 == route_id(inputs, j);
        assert(a != b);
        assert(list.len() > 1);
    }
}

/// The selector of one model on one route only.
pub open spec fn selects_only(
    inputs: Seq<RouteInput>,
    account: bool,
    text: Seq<char>,
    i: int,
    model: Seq<char>,
) -> bool {
    &&& in_use(inputs, account, i) && spells(inputs[i], model)
    &&& folded(alias_of(route_id(inputs, i), model)) == folded(text)
    &&& forall|j: int, m: Seq<char>|
        in_use(inputs, account, j) && #[trigger] spells(inputs[j], m) && folded(
            alias_of(route_id(inputs, j), m),
        ) == folded(text) ==> j == i && m == model
}

proof fn lemma_selector_added(
    inputs: Seq<RouteInput>,
    account: bool,
    at: int,
    table: SnapshotV,
    k: int,
    text: Seq<char>,
    i: int,
    model: Seq<char>,
)
    requires
        in_use(inputs, account, at),
        0 <= k <= target_of(inputs[at]).models.len(),
        selects_only(inputs, account, text, i, model),
    ensures
        ({
            let models = target_of(inputs[at]).models;
            let found = lookup(
                add_models(table, route_id(inputs, at), models, k).aliases,
                folded(text),
            );
            let known = lookup(table.aliases, folded(text));
            if at == i && exists|j: int| 0 <= j < k && #[trigger] models[j] == model {
                found == Some((route_id(inputs, i), model))
            } else {
                found == known
            }
        }),
    decreases k,
{
    if k > 0 {
        lemma_selector_added(inputs, account, at, table, k - 1, text, i, model);
        let models = target_of(inputs[at]).models;
        let before = add_models(table, route_id(inputs, at), models, k - 1);
        let m = models[k - 1];
        lemma_models_are_spelled(inputs[at], m);
        assert(models.contains(m));
        assert(spells(inputs[at], m));
        set_then_look(
            before.aliases,
            model_key(alias_of(route_id(inputs, at), m)),
            (route_id(inputs, at), m),
            folded(text),
        );
        if exists|j: int| 0 <= j < k - 1 && #[trigger] models[j] == model {
            let j = choose|j: int| 0 <= j < k - 1 && #[trigger] models[j] == model;
            assert(models[j] == model);
        }
        if exists|j: int| 0 <= j < k && #[trigger] models[j] == model {
            let j = choose|j: int| 0 <= j < k && #[trigger] models[j] == model;
            assert(models[j] == model);
        }
    }
}

proof fn lemma_selector(
    inputs: Seq<RouteInput>,
    account: bool,
    n: int,
    text: Seq<char>,
    i: int,
    model: Seq<char>,
)
    requires
        0 <= n <= inputs.len(),
        selects_only(inputs, account, text, i, model),
    ensures
        lookup(table_of(inputs, account, n).aliases, folded(text)) == if i < n {
            Some((route_id(inputs, i), model))
        } else {
            None
        },
    decreases n,
{
    if n > 0 {
        lemma_selector(inputs, account, n - 1, text, i, model);
        lemma_in_use(inputs, account, n - 1);
        if in_use(inputs, account, n - 1) {
            let models = target_of(inputs[n - 1]).models;
            lemma_selector_added(
                inputs,
                account,
                n - 1,
                table_of(inputs, account, n - 1),
                models.len() as int,
                text,
                i,
                model,
            );
            if n - 1 == i {
                lemma_models_are_spelled(inputs[i], model);
                let j = choose|j: int| 0 <= j < models.len() && models[j] == model;
                assert(models[j] == model);
            }
        }
    }
}

/// A selector takes a request to the route and the model that it names, whatever the hint and the
/// binding say.
pub proof fn a_selector_reaches_its_route(
    inputs: Seq<RouteInput>,
    account: bool,
    history: Seq<(Seq<char>, Seq<char>)>,
    requested: Seq<char>,
    hint: Option<Seq<char>>,
    bound: Option<Seq<char>>,
    i: int,
    model: Seq<char>,
)
    requires
        trim(requested).len() > 0,
        selects_only(inputs, account, requested, i, model),
        forall|j: int|
            in_use(inputs, account, j) && j != i ==> #[trigger] route_id(inputs, j) != route_id(
                inputs,
                i,
            ),
    ensures
        select_route(whole_table(inputs, account), history, requested, hint, bound) == Ok::<
            SelectionV,
            FailureV,
        >(
            SelectionV {
                provider_id: route_id(inputs, i),
                protocol: inputs[i].protocol,
                requested_model: trim(requested),
                upstream_model: model,
            },
        ),
{
    trim_leaves_clean_ends(requested);
    lemma_selector(inputs, account, inputs.len() as int, requested, i, model);
    lemma_routes(inputs, account, inputs.len() as int, i);
    lemma_models_are_spelled(inputs[i], model);
}

/// Every route in the table is that of the configuration which can be used, with the settings that
/// it has there; and a route that cannot be used is not in it.
pub proof fn the_table_holds_the_routes_in_use(
    inputs: Seq<RouteInput>,
    account: bool,
    id: Seq<char>,
)
    requires
        ids_differ(inputs, account),
    ensures
        match lookup(whole_table(inputs, account).routes, id) {
            Some(t) => exists|i: int|
                in_use(inputs, account, i) && #[trigger] route_id(inputs, i) == id
                    && keeps_settings(inputs[i], t),
            None => forall|i: int|
                in_use(inputs, account, i) ==> #[trigger] route_id(inputs, i) != id,
        },
{
    let n = inputs.len() as int;
    lemma_route_is_in_use(inputs, account, n, id);
    if exists|i: int| in_use(inputs, account, i) && #[trigger] route_id(inputs, i) == id {
        let i = choose|i: int| in_use(inputs, account, i) && #[trigger] route_id(inputs, i) == id;
        assert forall|j: int| in_use(inputs, account, j) && j != i implies #[trigger] route_id(
            inputs,
            j,
        ) != route_id(inputs, i) by {}
        lemma_routes(inputs, account, n, i);
        assert(keeps_settings(inputs[i], target_of(inputs[i]))) by {
            assert forall|m: Seq<char>| target_of(inputs[i]).models.contains(m) <==> #[trigger] spells(
                inputs[i],
                m,
            ) by {
                lemma_models_are_spelled(inputs[i], m);
            }
        }
    }
}

/// The route has the settings that the configuration gives it.
pub open spec fn keeps_settings(input: RouteInput, t: RouteTargetV) -> bool {
    &&& t.provider_id == trim(input.provider_id@)
    &&& t.route_name == trim(input.name@)
    &&& t.protocol == input.protocol
    &&& t.official_account == input.official_account
    &&& t.upstream_url == text_result(input.upstream_url)
    &&& t.upstream_compact_url == text_result(input.upstream_compact_url)
    &&& t.upstream_websocket_url == text_result(input.upstream_websocket_url)
    &&& t.upstream_headers == headers_result(input.upstream_headers)
    &&& t.upstream_authority == input.upstream_authority@
    &&& t.supports_remote_compaction == input.supports_remote_compaction
    &&& t.supports_websockets == (input.supports_websockets && input.protocol
        == UpstreamProtocol::OpenAiResponses)
    &&& forall|m: Seq<char>| t.models.contains(m) <==> #[trigger] spells(input, m)
}

proof fn lemma_route_is_in_use(inputs: Seq<RouteInput>, account: bool, n: int, id: Seq<char>)
    requires
        0 <= n <= inputs.len(),
    ensures
        lookup(table_of(inputs, account, n).routes, id) is Some ==> exists|i: int|
            in_use(inputs, account, i) && #[trigger] route_id(inputs, i) == id,
    decreases n,
{
    if n > 0 {
        lemma_route_is_in_use(inputs, account, n - 1, id);
        lemma_in_use(inputs, account, n - 1);
        let before = table_of(inputs, account, n - 1);
        let target = target_of(inputs[n - 1]);
        lemma_added_models(
            before,
            target.provider_id,
            target.models,
            target.models.len() as int,
            Seq::empty(),
        );
        set_then_look(before.routes, target.provider_id, target, id);
        if in_use(inputs, account, n - 1) {
            assert(route_id(inputs, n - 1) == target.provider_id);
        }
    }
}

proof fn lemma_entry_stays<V>(pairs: Seq<(Seq<char>, V)>, key: Seq<char>, value: V, q: int)
    requires
        0 <= q < with_key(pairs, key, value).len(),
    ensures
        with_key(pairs, key, value)[q] == (key, value) || pairs.contains(
            with_key(pairs, key, value)[q],
        ),
    decreases pairs.len(),
{
    let after = with_key(pairs, key, value);
    if pairs.len() > 0 {
        if q == after.len() - 1 {
            if pairs.last().0 != key && lookup(pairs, key) is Some {
                assert(pairs[pairs.len() - 1] == after[q]);
            }
        } else if pairs.last().0 == key {
            assert(pairs[q] == after[q]);
        } else if lookup(pairs, key) is Some {
            let rest = pairs.drop_last();
            lemma_entry_stays(rest, key, value, q);
            assert(with_key(rest, key, value)[q] == after[q]);
            if rest.contains(after[q]) {
                let k = choose|k: int| 0 <= k < rest.len() && rest[k] == after[q];
                assert(pairs[k] == after[q]);
            }
        } else {
            assert(pairs[q] == after[q]);
        }
    }
}

spec fn is_route_in_use(
    inputs: Seq<RouteInput>,
    account: bool,
    i: int,
    entry: (Seq<char>, RouteTargetV),
) -> bool {
    in_use(inputs, account, i) && entry == (route_id(inputs, i), target_of(inputs[i]))
}

spec fn some_in_use(
    inputs: Seq<RouteInput>,
    account: bool,
    entry: (Seq<char>, RouteTargetV),
) -> bool {
    exists|i: int| #[trigger] is_route_in_use(inputs, account, i, entry)
}

proof fn lemma_entries_in_use(inputs: Seq<RouteInput>, account: bool, n: int)
    requires
        0 <= n <= inputs.len(),
    ensures
        forall|q: int|
            0 <= q < table_of(inputs, account, n).routes.len() ==> some_in_use(
                inputs,
                account,
                #[trigger] table_of(inputs, account, n).routes[q],
            ),
    decreases n,
{
    if n > 0 {
        lemma_entries_in_use(inputs, account, n - 1);
        lemma_in_use(inputs, account, n - 1);
        if in_use(inputs, account, n - 1) {
            let before = table_of(inputs, account, n - 1);
            let target = target_of(inputs[n - 1]);
            lemma_added_models(
                before,
                target.provider_id,
                target.models,
                target.models.len() as int,
                Seq::empty(),
            );
            let after = table_of(inputs, account, n).routes;
            assert forall|q: int| 0 <= q < after.len() implies some_in_use(
                inputs,
                account,
                #[trigger] after[q],
            ) by {
                lemma_entry_stays(before.routes, target.provider_id, target, q);
                let entry = after[q];
                if entry == (target.provider_id, target) {
                    assert(is_route_in_use(inputs, account, n - 1, entry));
                } else {
                    let k = choose|k: int| 0 <= k < before.routes.len() && before.routes[k] == entry;
                    assert(some_in_use(inputs, account, before.routes[k]));
                    let i = choose|i: int| #[trigger] is_route_in_use(inputs, account, i, entry);
                    assert(is_route_in_use(inputs, account, i, entry));
                }
            }
        }
    }
}

proof fn lemma_reviewing(routes: Seq<(Seq<char>, RouteTargetV)>)
    ensures
        match reviewing_route(routes) {
            Some(id) => exists|q: int|
                0 <= q < routes.len() && (#[trigger] routes[q]).1.official_account
                    && routes[q].1.models.contains(CODEX_AUTO_REVIEW_MODEL@) && id
                    == routes[q].1.provider_id,
            None => forall|q: int|
                0 <= q < routes.len() ==> !((#[trigger] routes[q]).1.official_account
                    && routes[q].1.models.contains(CODEX_AUTO_REVIEW_MODEL@)),
        },
    decreases routes.len(),
{
    if routes.len() > 0 {
        let rest = routes.subrange(1, routes.len() as int);
        lemma_reviewing(rest);
        let t = routes[0].1;
        if !(t.official_account && t.models.contains(CODEX_AUTO_REVIEW_MODEL@)) {
            match reviewing_route(rest) {
                Some(id) => {
                    let q = choose|q: int|
                        0 <= q < rest.len() && (#[trigger] rest[q]).1.official_account
                            && rest[q].1.models.contains(CODEX_AUTO_REVIEW_MODEL@) && id
                            == rest[q].1.provider_id;
                    assert(routes[q + 1] == rest[q]);
                },
                None => {
                    assert forall|q: int| 0 <= q < routes.len() implies !((
                    #[trigger] routes[q]).1.official_account && routes[q].1.models.contains(
                        CODEX_AUTO_REVIEW_MODEL@,
                    )) by {
                        if q > 0 {
                            assert(rest[q - 1] == routes[q]);
                        }
                    }
                },
            }
        }
    }
}

/// A review that neither the hint nor the binding places goes to an official account that reviews,
/// where there is one.
pub proof fn a_review_goes_to_a_reviewing_account(
    inputs: Seq<RouteInput>,
    account: bool,
    history: Seq<(Seq<char>, Seq<char>)>,
    requested: Seq<char>,
    hint: Option<Seq<char>>,
    bound: Option<Seq<char>>,
    i: int,
) -> (k: int)
    requires
        trim(requested).len() > 0,
        !is_selector(inputs, account, requested),
        ids_differ(inputs, account),
        folded(meant_model(inputs, account, history, requested)) == folded(
            CODEX_AUTO_REVIEW_MODEL@,
        ),
        picks_none(
            inputs,
            account,
            meant_model(inputs, account, history, requested),
            hint,
        ),
        picks_none(
            inputs,
            account,
            meant_model(inputs, account, history, requested),
            bound,
        ),
        in_use(inputs, account, i),
        inputs[i].official_account,
        spells(inputs[i], CODEX_AUTO_REVIEW_MODEL@),
    ensures
        in_use(inputs, account, k) && inputs[k].official_account,
        is_given(
            inputs,
            k,
            CODEX_AUTO_REVIEW_MODEL@,
            trim(requested),
            select_route(whole_table(inputs, account), history, requested, hint, bound),
        ),
{
    let n = inputs.len() as int;
    let model = meant_model(inputs, account, history, requested);
    let routes = whole_table(inputs, account).routes;
    lemma_by_model(inputs, account, history, requested, hint, bound);
    lemma_picks_none(inputs, account, model, hint);
    lemma_picks_none(inputs, account, model, bound);
    lemma_reviewing(routes);
    lemma_entries_in_use(inputs, account, n);
    assert forall|j: int| in_use(inputs, account, j) && j != i implies #[trigger] route_id(
        inputs,
        j,
    ) != route_id(inputs, i) by {}
    lemma_routes(inputs, account, n, i);
    lemma_models_are_spelled(inputs[i], CODEX_AUTO_REVIEW_MODEL@);
    assert(reviewing_route(routes) is Some) by {
        lookup_place(routes, route_id(inputs, i));
        let q = choose|q: int|
            0 <= q < routes.len() && (#[trigger] routes[q]).0 == route_id(inputs, i);
        let entry = routes[q];
        assert(some_in_use(inputs, account, entry));
        let e = choose|e: int| #[trigger] is_route_in_use(inputs, account, e, entry);
        assert(in_use(inputs, account, e));
        assert(e == i);
        assert(routes[q].1 == target_of(inputs[i]));
    }
    let q = choose|q: int|
        0 <= q < routes.len() && (#[trigger] routes[q]).1.official_account
            && routes[q].1.models.contains(CODEX_AUTO_REVIEW_MODEL@) && reviewing_route(routes)
            == Some(routes[q].1.provider_id);
    let entry = routes[q];
    assert(some_in_use(inputs, account, entry));
    let k = choose|k: int| #[trigger] is_route_in_use(inputs, account, k, entry);
    assert(in_use(inputs, account, k));
    assert forall|j: int| in_use(inputs, account, j) && j != k implies #[trigger] route_id(
        inputs,
        j,
    ) != route_id(inputs, k) by {}
    lemma_models_are_spelled(inputs[k], CODEX_AUTO_REVIEW_MODEL@);
    lemma_select(
        inputs,
        account,
        k,
        CODEX_AUTO_REVIEW_MODEL@,
        CODEX_AUTO_REVIEW_MODEL@,
        trim(requested),
    );
    k
}

/// A request that names no model goes to the picked route, else to the one that the conversation is
/// bound to, where that route is there; else to the route of the default model.
pub proof fn a_request_without_a_model_has_a_route(
    inputs: Seq<RouteInput>,
    account: bool,
    history: Seq<(Seq<char>, Seq<char>)>,
    default_model: Seq<char>,
    hint: Option<Seq<char>>,
    bound: Option<Seq<char>>,
    i: int,
)
    requires
        ids_differ(inputs, account),
        in_use(inputs, account, i),
    ensures
        ({
            let table = whole_table(inputs, account);
            let given = select_auxiliary(table, history, default_model, hint, bound);
            &&& hint == Some(route_id(inputs, i)) ==> given == Ok::<Seq<char>, FailureV>(
                route_id(inputs, i),
            )
            &&& (forall|j: int|
                in_use(inputs, account, j) ==> hint != Some(#[trigger] route_id(inputs, j)))
                && bound == Some(route_id(inputs, i)) ==> given == Ok::<Seq<char>, FailureV>(
                route_id(inputs, i),
            )
            &&& (forall|j: int|
                in_use(inputs, account, j) ==> hint != Some(#[trigger] route_id(inputs, j)) && bound
                    != Some(route_id(inputs, j))) ==> match select_route(
                table,
                history,
                default_model,
                None,
                None,
            ) {
                Ok(s) => given == Ok::<Seq<char>, FailureV>(s.provider_id),
                Err(_) => given is Err,
            }
        }),
{
    let n = inputs.len() as int;
    trim_leaves_clean_ends(default_model);
    assert forall|j: int| in_use(inputs, account, j) && j != i implies #[trigger] route_id(
        inputs,
        j,
    ) != route_id(inputs, i) by {}
    lemma_routes(inputs, account, n, i);
    if let Some(h) = hint {
        lemma_route_is_in_use(inputs, account, n, h);
    }
    if let Some(b) = bound {
        lemma_route_is_in_use(inputs, account, n, b);
    }
    assert(select_route(whole_table(inputs, account), history, trim(default_model), None, None)
        == select_route(whole_table(inputs, account), history, default_model, None, None));
}

} // verus!
