//! Routes that plugins describe. A plugin never touches the configuration itself.
use crate::json::{Json, JsonV, copy_text, has_key, string_view};
use crate::local_router::routing::{
    UPSTREAM_PROTOCOL_ANTHROPIC_MESSAGES, UPSTREAM_PROTOCOL_OPENAI_CHAT_COMPLETIONS,
    UPSTREAM_PROTOCOL_OPENAI_RESPONSES,
};
use crate::model_id::{equal, model_key};
use crate::text::{
    cat3, chars_of, copy_pairs, copy_texts, list_has, listed_is_contained, lower, ordered_pairs,
    pairs_view, sort_pairs, str_eq, texts, texts_push, to_lower, trim, trimmed,
};
use crate::textmap::{
    TextBox, TextList, TextMap, lookup, remove_then_look, table_pairs, with_key, without_key,
};
use crate::urls::{
    UrlParts, UrlV, is_web_scheme, normalize_url, normalized_url, parse_url, url_parsed,
    web_scheme,
};
use vstd::prelude::*;
use vstd::string::*;

verus! {

pub const MAX_ROUTE_NAME_CHARS: usize = 15;

pub const AUTH_MODE_API_KEY: &'static str = "apiKey";

pub const AUTH_MODE_OFFICIAL_ACCOUNT: &'static str = "officialAccount";

pub const ROUTER_PROVIDER_ID: &'static str = "codey_router";

/// A route as a plugin describes it.
#[derive(Debug)]
pub struct PluginRouteSpec {
    pub name: String,
    pub base_url: String,
    pub upstream_protocol: String,
    pub models: Vec<String>,
    /// Headers by name, in the order of their names.
    pub headers: Vec<(String, String)>,
    pub short_name: String,
}

#[verifier::ext_equal]
pub struct SpecV {
    pub name: Seq<char>,
    pub base_url: Seq<char>,
    pub upstream_protocol: Seq<char>,
    pub models: Seq<Seq<char>>,
    pub headers: Seq<(Seq<char>, Seq<char>)>,
    pub short_name: Seq<char>,
}

impl View for PluginRouteSpec {
    type V = SpecV;

    open spec fn view(&self) -> SpecV {
        SpecV {
            name: self.name@,
            base_url: self.base_url@,
            upstream_protocol: self.upstream_protocol@,
            models: texts(self.models@),
            headers: pairs_view(self.headers@),
            short_name: self.short_name@,
        }
    }
}

/// A configured route.
#[derive(Debug)]
pub struct ProviderProfile {
    pub id: String,
    pub name: String,
    pub short_name: String,
    pub base_url: String,
    pub upstream_protocol: String,
    pub model_request_headers: Vec<(String, String)>,
    pub auth_mode: String,
    pub official_account: bool,
    pub official_account_id: Option<String>,
    pub source_provider_id: Option<String>,
    pub api_key: String,
    pub api_key_configured: bool,
    pub upstream_proxy: String,
    pub enabled: bool,
    pub supports_remote_compaction: bool,
    pub supports_websockets: bool,
    pub supports_native_web_search: bool,
    pub supports_auto_review: bool,
    /// The plugin that the route belongs to.
    pub plugin_owner_id: Option<String>,
    /// What that plugin described.
    pub plugin_route_spec: Option<PluginRouteSpec>,
}

#[verifier::ext_equal]
pub struct ProfileV {
    pub id: Seq<char>,
    pub name: Seq<char>,
    pub short_name: Seq<char>,
    pub base_url: Seq<char>,
    pub upstream_protocol: Seq<char>,
    pub model_request_headers: Seq<(Seq<char>, Seq<char>)>,
    pub auth_mode: Seq<char>,
    pub official_account: bool,
    pub official_account_id: Option<Seq<char>>,
    pub source_provider_id: Option<Seq<char>>,
    pub api_key: Seq<char>,
    pub api_key_configured: bool,
    pub upstream_proxy: Seq<char>,
    pub enabled: bool,
    pub supports_remote_compaction: bool,
    pub supports_websockets: bool,
    pub supports_native_web_search: bool,
    pub supports_auto_review: bool,
    pub plugin_owner_id: Option<Seq<char>>,
    pub plugin_route_spec: Option<SpecV>,
}

pub open spec fn spec_view(r: Option<PluginRouteSpec>) -> Option<SpecV> {
    match r {
        Some(s) => Some(s@),
        None => None,
    }
}

impl View for ProviderProfile {
    type V = ProfileV;

    open spec fn view(&self) -> ProfileV {
        ProfileV {
            id: self.id@,
            name: self.name@,
            short_name: self.short_name@,
            base_url: self.base_url@,
            upstream_protocol: self.upstream_protocol@,
            model_request_headers: pairs_view(self.model_request_headers@),
            auth_mode: self.auth_mode@,
            official_account: self.official_account,
            official_account_id: string_view(self.official_account_id),
            source_provider_id: string_view(self.source_provider_id),
            api_key: self.api_key@,
            api_key_configured: self.api_key_configured,
            upstream_proxy: self.upstream_proxy@,
            enabled: self.enabled,
            supports_remote_compaction: self.supports_remote_compaction,
            supports_websockets: self.supports_websockets,
            supports_native_web_search: self.supports_native_web_search,
            supports_auto_review: self.supports_auto_review,
            plugin_owner_id: string_view(self.plugin_owner_id),
            plugin_route_spec: spec_view(self.plugin_route_spec),
        }
    }
}

pub open spec fn profile_list(v: Seq<ProviderProfile>) -> Seq<ProfileV> {
    Seq::new(v.len(), |i: int| v[i]@)
}

/// The part of the configuration that routes stand in.
pub struct CodeyConfig {
    pub local_router_enabled: bool,
    pub profiles: Vec<ProviderProfile>,
    pub upstream_models_by_provider: TextMap<TextList>,
    pub selected_models_by_provider: TextMap<TextList>,
    pub model_context_by_provider: TextMap<Json>,
    pub model_reasoning_efforts_by_provider: TextMap<Json>,
    pub manual_third_party_models_by_provider: TextMap<Json>,
    pub declared_official_models_by_provider: TextMap<TextList>,
}

#[verifier::ext_equal]
pub struct ConfigV {
    pub local_router_enabled: bool,
    pub profiles: Seq<ProfileV>,
    pub upstream_models: Seq<(Seq<char>, Seq<Seq<char>>)>,
    pub selected_models: Seq<(Seq<char>, Seq<Seq<char>>)>,
    pub contexts: Seq<(Seq<char>, JsonV)>,
    pub efforts: Seq<(Seq<char>, JsonV)>,
    pub manual_models: Seq<(Seq<char>, JsonV)>,
    pub declared_models: Seq<(Seq<char>, Seq<Seq<char>>)>,
}

impl View for CodeyConfig {
    type V = ConfigV;

    open spec fn view(&self) -> ConfigV {
        ConfigV {
            local_router_enabled: self.local_router_enabled,
            profiles: profile_list(self.profiles@),
            upstream_models: self.upstream_models_by_provider@,
            selected_models: self.selected_models_by_provider@,
            contexts: self.model_context_by_provider@,
            efforts: self.model_reasoning_efforts_by_provider@,
            manual_models: self.manual_third_party_models_by_provider@,
            declared_models: self.declared_official_models_by_provider@,
        }
    }
}

impl CodeyConfig {
    pub open spec fn inv(&self) -> bool {
        &&& self.upstream_models_by_provider.inv()
        &&& self.selected_models_by_provider.inv()
        &&& self.model_context_by_provider.inv()
        &&& self.model_reasoning_efforts_by_provider.inv()
        &&& self.manual_third_party_models_by_provider.inv()
        &&& self.declared_official_models_by_provider.inv()
    }

    /// A configuration without routes, with the local router on.
    pub fn new() -> (r: CodeyConfig)
        ensures
            r.inv(),
            r@.local_router_enabled,
            r@.profiles.len() == 0,
            r@.upstream_models.len() == 0,
            r@.selected_models.len() == 0,
    {
        CodeyConfig {
            local_router_enabled: true,
            profiles: Vec::new(),
            upstream_models_by_provider: TextMap::new(),
            selected_models_by_provider: TextMap::new(),
            model_context_by_provider: TextMap::new(),
            model_reasoning_efforts_by_provider: TextMap::new(),
            manual_third_party_models_by_provider: TextMap::new(),
            declared_official_models_by_provider: TextMap::new(),
        }
    }
}

impl PluginRouteSpec {
    /// A description with the same content.
    pub fn copy(&self) -> (r: PluginRouteSpec)
        ensures
            r@ == self@,
    {
        PluginRouteSpec {
            name: self.name.clone(),
            base_url: self.base_url.clone(),
            upstream_protocol: self.upstream_protocol.clone(),
            models: copy_texts(&self.models),
            headers: copy_pairs(&self.headers),
            short_name: self.short_name.clone(),
        }
    }
}

impl ProviderProfile {
    /// A route with the same content.
    pub fn copy(&self) -> (r: ProviderProfile)
        ensures
            r@ == self@,
    {
        let plugin_route_spec = match &self.plugin_route_spec {
            Some(s) => Some(s.copy()),
            None => None,
        };
        ProviderProfile {
            id: self.id.clone(),
            name: self.name.clone(),
            short_name: self.short_name.clone(),
            base_url: self.base_url.clone(),
            upstream_protocol: self.upstream_protocol.clone(),
            model_request_headers: copy_pairs(&self.model_request_headers),
            auth_mode: self.auth_mode.clone(),
            official_account: self.official_account,
            official_account_id: copy_text(&self.official_account_id),
            source_provider_id: copy_text(&self.source_provider_id),
            api_key: self.api_key.clone(),
            api_key_configured: self.api_key_configured,
            upstream_proxy: self.upstream_proxy.clone(),
            enabled: self.enabled,
            supports_remote_compaction: self.supports_remote_compaction,
            supports_websockets: self.supports_websockets,
            supports_native_web_search: self.supports_native_web_search,
            supports_auto_review: self.supports_auto_review,
            plugin_owner_id: copy_text(&self.plugin_owner_id),
            plugin_route_spec,
        }
    }
}

impl ProfileV {
    /// What other tables know the route by.
    pub open spec fn provider_id(self) -> Seq<char> {
        match self.source_provider_id {
            Some(id) => id,
            None => self.id,
        }
    }

    pub open spec fn normalized_base_url(self) -> Seq<char> {
        normalized_url(self.base_url)
    }

    pub open spec fn has_key(self) -> bool {
        trim(self.api_key).len() > 0
    }

    /// The route in the form in which it is stored.
    pub open spec fn normalized(self) -> ProfileV {
        ProfileV { name: trim(self.name), base_url: normalized_url(self.base_url), ..self }
    }

    /// The route as the user's own.
    pub open spec fn detached(self) -> ProfileV {
        ProfileV { plugin_owner_id: None, plugin_route_spec: None, ..self }
    }
}

impl ProviderProfile {
    /// What other tables know the route by.
    pub fn provider_id(&self) -> (r: &str)
        ensures
            r@ == self@.provider_id(),
    {
        match &self.source_provider_id {
            Some(id) => id.as_str(),
            None => self.id.as_str(),
        }
    }

    pub fn normalized_base_url(&self) -> (r: String)
        ensures
            r@ == self@.normalized_base_url(),
    {
        normalize_url(self.base_url.as_str())
    }

    fn has_key(&self) -> (r: bool)
        ensures
            r == self@.has_key(),
    {
        !trimmed(self.api_key.as_str()).as_str().is_empty()
    }

    /// Brings the route into the form in which it is stored.
    pub fn normalize(&mut self)
        ensures
            final(self)@ == old(self)@.normalized(),
    {
        self.name = trimmed(self.name.as_str());
        self.base_url = normalize_url(self.base_url.as_str());
    }

    /// Makes the route the user's own.
    pub fn detach(&mut self)
        ensures
            final(self)@ == old(self)@.detached(),
    {
        self.plugin_owner_id = None;
        self.plugin_route_spec = None;
    }
}

/// Headers by lower case name, in the order of their names. Of two with one name the later stays.
pub open spec fn lowered(list: Seq<(Seq<char>, Seq<char>)>, trimming: bool) -> Seq<
    (Seq<char>, Seq<char>),
>
    decreases list.len(),
{
    if list.len() == 0 {
        list
    } else {
        let name = list.last().0;
        with_key(
            lowered(list.drop_last(), trimming),
            lower(
                if trimming {
                    trim(name)
                } else {
                    name
                },
            ),
            list.last().1,
        )
    }
}

pub open spec fn header_table(list: Seq<(Seq<char>, Seq<char>)>, trimming: bool) -> Seq<
    (Seq<char>, Seq<char>),
> {
    ordered_pairs(lowered(ordered_pairs(list), trimming))
}

/// Headers by lower case name, in the order of their names.
pub fn normalized_headers(list: &Vec<(String, String)>, trimming: bool) -> (r: Vec<
    (String, String),
>)
    ensures
        pairs_view(r@) == header_table(pairs_view(list@), trimming),
{
    let sorted = sort_pairs(list);
    let ghost all = pairs_view(sorted@);
    let mut table: TextMap<TextBox> = TextMap::new();
    let mut i: usize = 0;
    proof {
        assert(table@ =~= lowered(all.subrange(0, 0), trimming));
    }
    while i < sorted.len()
        invariant
            i <= sorted.len(),
            all == pairs_view(sorted@),
            table.inv(),
            table@ == lowered(all.subrange(0, i as int), trimming),
        decreases sorted.len() - i,
    {
        proof {
            assert(all.subrange(0, i + 1).drop_last() =~= all.subrange(0, i as int));
            assert(all.subrange(0, i + 1).last() == all[i as int]);
        }
        let name = if trimming {
            to_lower(trimmed(sorted[i].0.as_str()).as_str())
        } else {
            to_lower(sorted[i].0.as_str())
        };
        table.insert(name.as_str(), TextBox { text: sorted[i].1.clone() });
        i = i + 1;
    }
    proof {
        assert(all.subrange(0, i as int) =~= all);
    }
    sort_pairs(&table_pairs(&table))
}

/// The address can be called from here.
pub open spec fn is_outbound(url: Option<UrlV>) -> bool {
    url matches Some(u) && is_web_scheme(u.scheme) && (u.host matches Some(h) && h.len() > 0)
}

/// A description in the form in which it is stored, by what its address parses to.
pub open spec fn normal_spec(spec: SpecV, url: Option<UrlV>) -> Result<SpecV, Seq<char>> {
    let name = trim(spec.name);
    if name.len() == 0 || name.len() > 15 {
        Err("插件线路名称需要 1 到 15 个字符"@)
    } else if !is_outbound(url) {
        Err("插件线路的 API URL 无效"@)
    } else if spec.upstream_protocol != "openaiResponses"@ && spec.upstream_protocol
        != "openaiChatCompletions"@ && spec.upstream_protocol != "anthropicMessages"@ {
        Err("插件线路协议不受支持"@)
    } else {
        Ok(
            SpecV {
                name,
                base_url: normalized_url(spec.base_url),
                headers: header_table(spec.headers, false),
                ..spec
            },
        )
    }
}

pub open spec fn spec_result(r: Result<PluginRouteSpec, String>) -> Result<SpecV, Seq<char>> {
    match r {
        Ok(s) => Ok(s@),
        Err(e) => Err(e@),
    }
}

/// Checks a description and brings it into the form in which it is stored, by what its address
/// parses to.
pub fn check_spec(spec: PluginRouteSpec, url: &Option<UrlParts>) -> (r: Result<
    PluginRouteSpec,
    String,
>)
    ensures
        spec_result(r) == normal_spec(
            spec@,
            match url {
                Some(u) => Some(u@),
                None => None,
            },
        ),
{
    let mut spec = spec;
    let name = trimmed(spec.name.as_str());
    let length = chars_of(name.as_str()).len();
    if length == 0 || length > MAX_ROUTE_NAME_CHARS {
        return Err("插件线路名称需要 1 到 15 个字符".to_owned());
    }
    let outbound = match url {
        Some(u) => web_scheme(u.scheme.as_str()) && match &u.host {
            Some(h) => !h.as_str().is_empty(),
            None => false,
        },
        None => false,
    };
    if !outbound {
        return Err("插件线路的 API URL 无效".to_owned());
    }
    let protocol = spec.upstream_protocol.as_str();
    if !str_eq(protocol, UPSTREAM_PROTOCOL_OPENAI_RESPONSES) && !str_eq(
        protocol,
        UPSTREAM_PROTOCOL_OPENAI_CHAT_COMPLETIONS,
    ) && !str_eq(protocol, UPSTREAM_PROTOCOL_ANTHROPIC_MESSAGES) {
        return Err("插件线路协议不受支持".to_owned());
    }
    spec.name = name;
    spec.base_url = normalize_url(spec.base_url.as_str());
    spec.headers = normalized_headers(&spec.headers, false);
    Ok(spec)
}

/// Checks a description and brings it into the form in which it is stored.
pub fn normalize_spec(spec: PluginRouteSpec) -> (r: Result<PluginRouteSpec, String>)
    ensures
        spec_result(r) == normal_spec(spec@, url_parsed(normalized_url(spec.base_url@))),
{
    let base = normalize_url(spec.base_url.as_str());
    let url = parse_url(base.as_str());
    check_spec(spec, &url)
}

/// A route after a plugin described it anew.
pub open spec fn applied(p: ProfileV, plugin: Seq<char>, spec: SpecV, keep_user_fields: bool) -> ProfileV {
    let set = ProfileV {
        name: spec.name,
        base_url: spec.base_url,
        upstream_protocol: spec.upstream_protocol,
        model_request_headers: spec.headers,
        auth_mode: "apiKey"@,
        official_account: false,
        official_account_id: None,
        source_provider_id: None,
        plugin_owner_id: Some(plugin),
        ..p
    };
    let cleared = if keep_user_fields {
        set
    } else {
        ProfileV {
            api_key: Seq::empty(),
            api_key_configured: false,
            upstream_proxy: Seq::empty(),
            enabled: true,
            supports_remote_compaction: false,
            supports_websockets: false,
            supports_native_web_search: false,
            supports_auto_review: false,
            ..set
        }
    };
    let normal = cleared.normalized();
    ProfileV {
        plugin_route_spec: Some(
            SpecV {
                short_name: normal.short_name,
                base_url: normal.normalized_base_url(),
                ..spec
            },
        ),
        ..normal
    }
}

/// Brings a route in line with what a plugin describes.
pub fn apply_spec(
    profile: &mut ProviderProfile,
    plugin_id: &str,
    spec: &PluginRouteSpec,
    keep_user_fields: bool,
)
    ensures
        final(profile)@ == applied(old(profile)@, plugin_id@, spec@, keep_user_fields),
{
    profile.name = spec.name.clone();
    profile.base_url = spec.base_url.clone();
    profile.upstream_protocol = spec.upstream_protocol.clone();
    profile.model_request_headers = copy_pairs(&spec.headers);
    profile.auth_mode = AUTH_MODE_API_KEY.to_owned();
    profile.official_account = false;
    profile.official_account_id = None;
    profile.source_provider_id = None;
    if !keep_user_fields {
        profile.api_key = String::new();
        profile.api_key_configured = false;
        profile.upstream_proxy = String::new();
        profile.enabled = true;
        profile.supports_remote_compaction = false;
        profile.supports_websockets = false;
        profile.supports_native_web_search = false;
        profile.supports_auto_review = false;
    }
    profile.plugin_owner_id = Some(plugin_id.to_owned());
    profile.normalize();
    let mut stored = spec.copy();
    stored.short_name = profile.short_name.clone();
    stored.base_url = profile.normalized_base_url();
    profile.plugin_route_spec = Some(stored);
}

/// The route stands as its plugin described it.
pub open spec fn structure_matches(p: ProfileV) -> bool {
    match p.plugin_route_spec {
        None => false,
        Some(spec) => {
            &&& trim(p.name) == spec.name
            &&& p.normalized_base_url() == spec.base_url
            &&& p.upstream_protocol == spec.upstream_protocol
            &&& header_table(p.model_request_headers, true) == ordered_pairs(spec.headers)
            &&& p.short_name == spec.short_name
            &&& trim(p.auth_mode) != "officialAccount"@
            &&& !p.official_account
            &&& p.official_account_id is None
            &&& p.source_provider_id is None
        },
    }
}

fn same_pairs(a: &Vec<(String, String)>, b: &Vec<(String, String)>) -> (r: bool)
    ensures
        r == (pairs_view(a@) == pairs_view(b@)),
{
    proof {
        assert(pairs_view(a@).len() == a.len());
        assert(pairs_view(b@).len() == b.len());
    }
    if a.len() != b.len() {
        return false;
    }
    let mut i: usize = 0;
    while i < a.len()
        invariant
            i <= a.len() == b.len(),
            forall|j: int| 0 <= j < i ==> pairs_view(a@)[j] == pairs_view(b@)[j],
        decreases a.len() - i,
    {
        if !str_eq(a[i].0.as_str(), b[i].0.as_str()) || !str_eq(a[i].1.as_str(), b[i].1.as_str()) {
            proof {
                assert(pairs_view(a@)[i as int] != pairs_view(b@)[i as int]);
            }
            return false;
        }
        i = i + 1;
    }
    proof {
        assert(pairs_view(a@) =~= pairs_view(b@));
    }
    true
}

impl ProviderProfile {
    /// Whether the route stands as its plugin described it.
    pub fn structure_matches(&self) -> (r: bool)
        ensures
            r == structure_matches(self@),
    {
        let spec = match &self.plugin_route_spec {
            None => {
                return false;
            },
            Some(s) => s,
        };
        let headers = normalized_headers(&self.model_request_headers, true);
        let expected = sort_pairs(&spec.headers);
        str_eq(trimmed(self.name.as_str()).as_str(), spec.name.as_str()) && str_eq(
            self.normalized_base_url().as_str(),
            spec.base_url.as_str(),
        ) && str_eq(self.upstream_protocol.as_str(), spec.upstream_protocol.as_str()) && same_pairs(
            &headers,
            &expected,
        ) && str_eq(self.short_name.as_str(), spec.short_name.as_str()) && !str_eq(
            trimmed(self.auth_mode.as_str()).as_str(),
            AUTH_MODE_OFFICIAL_ACCOUNT,
        ) && !self.official_account && self.official_account_id.is_none()
            && self.source_provider_id.is_none()
    }

    fn is_owned_by(&self, plugin_id: &str) -> (r: bool)
        ensures
            r == (self@.plugin_owner_id == Some(plugin_id@)),
    {
        match &self.plugin_owner_id {
            Some(owner) => str_eq(owner.as_str(), plugin_id),
            None => false,
        }
    }
}

/// The plugin keeps a route that was edited. A route that no longer stands as described becomes the
/// user's own, which takes a key.
pub open spec fn retained(p: ProfileV, previous: ProfileV) -> Result<ProfileV, Seq<char>> {
    let kept = ProfileV {
        plugin_owner_id: previous.plugin_owner_id,
        plugin_route_spec: previous.plugin_route_spec,
        ..p
    };
    if kept.plugin_owner_id is None {
        Ok(kept.detached())
    } else if structure_matches(kept) {
        Ok(kept)
    } else if !kept.has_key() {
        Err(
            "修改插件线路「"@ + trim(p.name)
                + "」的名称、地址、协议、短名称或请求头前，请先填写 API Key"@,
        )
    } else {
        Ok(kept.detached())
    }
}

/// Lets a plugin keep a route that was edited, or makes it the user's own.
pub fn retain_plugin_ownership(profile: &mut ProviderProfile, previous: &ProviderProfile) -> (r:
    Result<(), String>)
    ensures
        match r {
            Ok(_) => retained(old(profile)@, previous@) == Ok::<ProfileV, Seq<char>>(
                final(profile)@,
            ),
            Err(e) => retained(old(profile)@, previous@) == Err::<ProfileV, Seq<char>>(e@)
                && final(profile)@ == (ProfileV {
                plugin_owner_id: previous@.plugin_owner_id,
                plugin_route_spec: previous@.plugin_route_spec,
                ..old(profile)@
            }),
        },
{
    profile.plugin_owner_id = copy_text(&previous.plugin_owner_id);
    profile.plugin_route_spec = match &previous.plugin_route_spec {
        Some(s) => Some(s.copy()),
        None => None,
    };
    if profile.plugin_owner_id.is_none() {
        profile.plugin_route_spec = None;
        return Ok(());
    }
    if profile.structure_matches() {
        return Ok(());
    }
    if !profile.has_key() {
        return Err(
            cat3(
                "修改插件线路「",
                trimmed(profile.name.as_str()).as_str(),
                "」的名称、地址、协议、短名称或请求头前，请先填写 API Key",
            ),
        );
    }
    profile.detach();
    Ok(())
}

/// The first of the first routes that a plugin has: one that stands as described, or one without a
/// key.
pub open spec fn first_owned(profiles: Seq<ProfileV>, plugin: Seq<char>, matching: bool, n: int) -> Option<
    int,
>
    decreases n,
{
    if n <= 0 {
        None
    } else {
        match first_owned(profiles, plugin, matching, n - 1) {
            Some(i) => Some(i),
            None => {
                let p = profiles[n - 1];
                if p.plugin_owner_id == Some(plugin) && (if matching {
                    structure_matches(p)
                } else {
                    !p.has_key()
                }) {
                    Some(n - 1)
                } else {
                    None
                }
            },
        }
    }
}

/// The route that a plugin's description goes to: one that stands as described before, or one
/// without a key.
pub open spec fn reusable(profiles: Seq<ProfileV>, plugin: Seq<char>) -> Option<int> {
    match first_owned(profiles, plugin, true, profiles.len() as int) {
        Some(i) => Some(i),
        None => first_owned(profiles, plugin, false, profiles.len() as int),
    }
}

proof fn lemma_first_owned(profiles: Seq<ProfileV>, plugin: Seq<char>, matching: bool, n: int, m: int)
    requires
        0 <= n <= m <= profiles.len(),
    ensures
        first_owned(profiles, plugin, matching, n) is Some ==> first_owned(
            profiles,
            plugin,
            matching,
            m,
        ) == first_owned(profiles, plugin, matching, n),
        first_owned(profiles, plugin, matching, n) matches Some(i) ==> 0 <= i < n
            && profiles[i].plugin_owner_id == Some(plugin),
    decreases m,
{
    if n < m {
        lemma_first_owned(profiles, plugin, matching, n, m - 1);
    } else if n > 0 {
        lemma_first_owned(profiles, plugin, matching, n - 1, n - 1);
    }
}

fn find_owned(profiles: &Vec<ProviderProfile>, plugin_id: &str, matching: bool) -> (r: Option<usize>)
    ensures
        match r {
            Some(i) => i < profiles.len() && first_owned(
                profile_list(profiles@),
                plugin_id@,
                matching,
                profiles.len() as int,
            ) == Some(i as int),
            None => first_owned(
                profile_list(profiles@),
                plugin_id@,
                matching,
                profiles.len() as int,
            ) is None,
        },
{
    let ghost all = profile_list(profiles@);
    let mut i: usize = 0;
    while i < profiles.len()
        invariant
            i <= profiles.len(),
            all == profile_list(profiles@),
            first_owned(all, plugin_id@, matching, i as int) is None,
        decreases profiles.len() - i,
    {
        let p = &profiles[i];
        proof {
            assert(all[i as int] == p@);
        }
        let wanted = if matching {
            p.structure_matches()
        } else {
            !p.has_key()
        };
        if p.is_owned_by(plugin_id) && wanted {
            proof {
                lemma_first_owned(all, plugin_id@, matching, i + 1, profiles.len() as int);
            }
            return Some(i);
        }
        i = i + 1;
    }
    None
}

fn find_reusable(profiles: &Vec<ProviderProfile>, plugin_id: &str) -> (r: Option<usize>)
    ensures
        match r {
            Some(i) => i < profiles.len() && reusable(profile_list(profiles@), plugin_id@) == Some(
                i as int,
            ),
            None => reusable(profile_list(profiles@), plugin_id@) is None,
        },
{
    proof {
        assert(profile_list(profiles@).len() == profiles.len());
    }
    match find_owned(profiles, plugin_id, true) {
        Some(i) => Some(i),
        None => find_owned(profiles, plugin_id, false),
    }
}

/// A plugin's other route: with a key it becomes the user's own.
pub open spec fn given_up(p: ProfileV, plugin: Seq<char>) -> ProfileV {
    if p.plugin_owner_id == Some(plugin) && p.has_key() {
        p.detached()
    } else {
        p
    }
}

/// The routes once a plugin has given up all but one.
pub open spec fn settled(profiles: Seq<ProfileV>, plugin: Seq<char>, keep: Option<int>) -> Seq<
    ProfileV,
> {
    Seq::new(
        profiles.len(),
        |i: int|
            if keep == Some(i) {
                profiles[i]
            } else {
                given_up(profiles[i], plugin)
            },
    )
}

/// The routes without a key that a plugin gives up, by what other tables know them by.
pub open spec fn removed_ids(
    profiles: Seq<ProfileV>,
    plugin: Seq<char>,
    keep: Option<int>,
    n: int,
) -> Seq<Seq<char>>
    decreases n,
{
    if n <= 0 {
        Seq::empty()
    } else {
        let rest = removed_ids(profiles, plugin, keep, n - 1);
        let p = profiles[n - 1];
        if keep != Some(n - 1) && p.plugin_owner_id == Some(plugin) && !p.has_key() {
            rest.push(p.provider_id())
        } else {
            rest
        }
    }
}

pub open spec fn index_view(r: Option<usize>) -> Option<int> {
    match r {
        Some(i) => Some(i as int),
        None => None,
    }
}

fn settle(profiles: &Vec<ProviderProfile>, plugin_id: &str, keep: Option<usize>) -> (r: (
    Vec<ProviderProfile>,
    Vec<String>,
))
    ensures
        profile_list(r.0@) == settled(profile_list(profiles@), plugin_id@, index_view(keep)),
        texts(r.1@) == removed_ids(
            profile_list(profiles@),
            plugin_id@,
            index_view(keep),
            profiles.len() as int,
        ),
{
    let ghost all = profile_list(profiles@);
    let ghost place = index_view(keep);
    let mut out: Vec<ProviderProfile> = Vec::new();
    let mut removed: Vec<String> = Vec::new();
    let mut i: usize = 0;
    proof {
        assert(texts(removed@) =~= Seq::empty());
    }
    while i < profiles.len()
        invariant
            i <= profiles.len(),
            all == profile_list(profiles@),
            place == index_view(keep),
            out.len() == i,
            forall|j: int|
                0 <= j < i ==> (#[trigger] out@[j])@ == settled(all, plugin_id@, place)[j],
            texts(removed@) == removed_ids(all, plugin_id@, place, i as int),
        decreases profiles.len() - i,
    {
        let mut p = profiles[i].copy();
        proof {
            assert(all[i as int] == p@);
        }
        let kept = match keep {
            Some(k) => k == i,
            None => false,
        };
        if !kept && p.is_owned_by(plugin_id) {
            if p.has_key() {
                p.detach();
            } else {
                let id = p.provider_id().to_owned();
                proof {
                    texts_push(removed@, id);
                }
                removed.push(id);
            }
        }
        out.push(p);
        i = i + 1;
    }
    proof {
        assert(profile_list(out@) =~= settled(all, plugin_id@, place));
    }
    (out, removed)
}

/// The routes that are not among those removed.
pub open spec fn remaining(profiles: Seq<ProfileV>, ids: Seq<Seq<char>>) -> Seq<ProfileV>
    decreases profiles.len(),
{
    if profiles.len() == 0 {
        profiles
    } else {
        let rest = remaining(profiles.drop_last(), ids);
        if ids.contains(profiles.last().provider_id()) {
            rest
        } else {
            rest.push(profiles.last())
        }
    }
}

/// A table without some keys.
pub open spec fn without_keys<V>(table: Seq<(Seq<char>, V)>, ids: Seq<Seq<char>>) -> Seq<
    (Seq<char>, V),
>
    decreases ids.len(),
{
    if ids.len() == 0 {
        table
    } else {
        without_key(without_keys(table, ids.drop_last()), ids.last())
    }
}

/// The configuration without some routes, and without what it says of them.
pub open spec fn dropped(c: ConfigV, ids: Seq<Seq<char>>) -> ConfigV {
    if ids.len() == 0 {
        c
    } else {
        ConfigV {
            local_router_enabled: c.local_router_enabled,
            profiles: remaining(c.profiles, ids),
            upstream_models: without_keys(c.upstream_models, ids),
            selected_models: without_keys(c.selected_models, ids),
            contexts: without_keys(c.contexts, ids),
            efforts: without_keys(c.efforts, ids),
            manual_models: without_keys(c.manual_models, ids),
            declared_models: without_keys(c.declared_models, ids),
        }
    }
}

fn forget<T: View>(table: &mut TextMap<T>, ids: &Vec<String>)
    requires
        old(table).inv(),
    ensures
        final(table).inv(),
        final(table)@ == without_keys(old(table)@, texts(ids@)),
{
    let ghost all = texts(ids@);
    let ghost start = table@;
    let mut i: usize = 0;
    proof {
        assert(all.subrange(0, 0).len() == 0);
    }
    while i < ids.len()
        invariant
            i <= ids.len(),
            all == texts(ids@),
            table.inv(),
            table@ == without_keys(start, all.subrange(0, i as int)),
        decreases ids.len() - i,
    {
        proof {
            assert(all.subrange(0, i + 1).drop_last() =~= all.subrange(0, i as int));
            assert(all.subrange(0, i + 1).last() == all[i as int]);
        }
        let _ = table.remove(ids[i].as_str());
        i = i + 1;
    }
    proof {
        assert(all.subrange(0, i as int) =~= all);
    }
}

fn keep_remaining(profiles: &Vec<ProviderProfile>, ids: &Vec<String>) -> (r: Vec<ProviderProfile>)
    ensures
        profile_list(r@) == remaining(profile_list(profiles@), texts(ids@)),
{
    let ghost all = profile_list(profiles@);
    let mut out: Vec<ProviderProfile> = Vec::new();
    let mut i: usize = 0;
    proof {
        assert(profile_list(out@) =~= remaining(all.subrange(0, 0), texts(ids@)));
    }
    while i < profiles.len()
        invariant
            i <= profiles.len(),
            all == profile_list(profiles@),
            profile_list(out@) == remaining(all.subrange(0, i as int), texts(ids@)),
        decreases profiles.len() - i,
    {
        proof {
            assert(all.subrange(0, i + 1).drop_last() =~= all.subrange(0, i as int));
            assert(all.subrange(0, i + 1).last() == all[i as int]);
            assert(all[i as int] == profiles@[i as int]@);
            listed_is_contained(ids@, profiles@[i as int]@.provider_id());
        }
        if !list_has(ids, profiles[i].provider_id()) {
            let p = profiles[i].copy();
            let ghost before = out@;
            out.push(p);
            proof {
                assert(profile_list(out@) =~= profile_list(before).push(p@));
            }
        }
        i = i + 1;
    }
    proof {
        assert(all.subrange(0, i as int) =~= all);
    }
    out
}

fn drop_removed(config: &mut CodeyConfig, ids: &Vec<String>)
    requires
        old(config).inv(),
    ensures
        final(config).inv(),
        final(config)@ == dropped(old(config)@, texts(ids@)),
{
    proof {
        assert(texts(ids@).len() == ids.len());
    }
    if ids.len() == 0 {
        return ;
    }
    config.profiles = keep_remaining(&config.profiles, ids);
    forget(&mut config.selected_models_by_provider, ids);
    forget(&mut config.model_context_by_provider, ids);
    forget(&mut config.model_reasoning_efforts_by_provider, ids);
    forget(&mut config.manual_third_party_models_by_provider, ids);
    forget(&mut config.declared_official_models_by_provider, ids);
    forget(&mut config.upstream_models_by_provider, ids);
}

/// Two lists name the same models.
pub open spec fn lists_match(left: Seq<Seq<char>>, right: Seq<Seq<char>>) -> bool {
    left.len() == right.len() && forall|i: int|
        0 <= i < left.len() ==> model_key(#[trigger] left[i]) == model_key(right[i])
}

fn same_models(left: &Vec<String>, right: &Vec<String>) -> (r: bool)
    ensures
        r == lists_match(texts(left@), texts(right@)),
{
    proof {
        assert(texts(left@).len() == left.len());
        assert(texts(right@).len() == right.len());
    }
    if left.len() != right.len() {
        return false;
    }
    let mut i: usize = 0;
    while i < left.len()
        invariant
            i <= left.len() == right.len(),
            forall|j: int|
                0 <= j < i ==> model_key(#[trigger] texts(left@)[j]) == model_key(
                    texts(right@)[j],
                ),
        decreases left.len() - i,
    {
        if !equal(left[i].as_str(), right[i].as_str()) {
            proof {
                let _ = texts(left@)[i as int];
                assert(model_key(texts(left@)[i as int]) != model_key(texts(right@)[i as int]));
            }
            return false;
        }
        i = i + 1;
    }
    true
}

/// A list of models is replaced where there is none, or where it is still what the plugin gave.
pub open spec fn should_replace(current: Option<Seq<Seq<char>>>, previous: Option<Seq<Seq<char>>>) -> bool {
    match (current, previous) {
        (None, _) => true,
        (Some(c), Some(p)) => lists_match(c, p),
        (Some(_), None) => false,
    }
}

pub open spec fn replaced_models(
    table: Seq<(Seq<char>, Seq<Seq<char>>)>,
    id: Seq<char>,
    previous: Option<Seq<Seq<char>>>,
    next: Seq<Seq<char>>,
) -> Seq<(Seq<char>, Seq<Seq<char>>)> {
    if should_replace(lookup(table, id), previous) {
        with_key(table, id, next)
    } else {
        table
    }
}

pub open spec fn models_view(r: Option<&Vec<String>>) -> Option<Seq<Seq<char>>> {
    match r {
        Some(v) => Some(texts(v@)),
        None => None,
    }
}

fn replace_models(
    table: &mut TextMap<TextList>,
    id: &str,
    previous: Option<&Vec<String>>,
    next: &Vec<String>,
)
    requires
        old(table).inv(),
    ensures
        final(table).inv(),
        final(table)@ == replaced_models(
            old(table)@,
            id@,
            models_view(previous),
            texts(next@),
        ),
{
    let replace = match (table.get(id), previous) {
        (None, _) => true,
        (Some(current), Some(p)) => same_models(&current.items, p),
        (Some(_), None) => false,
    };
    if replace {
        table.insert(id, TextList { items: copy_texts(next) });
    }
}

/// The configuration with a plugin's models, where the user has not chosen others.
pub open spec fn assigned(
    c: ConfigV,
    id: Seq<char>,
    previous: Option<Seq<Seq<char>>>,
    next: Seq<Seq<char>>,
) -> ConfigV {
    ConfigV {
        upstream_models: replaced_models(c.upstream_models, id, previous, next),
        selected_models: replaced_models(c.selected_models, id, previous, next),
        ..c
    }
}

fn assign_models(
    config: &mut CodeyConfig,
    id: &str,
    previous: Option<&Vec<String>>,
    next: &Vec<String>,
)
    requires
        old(config).inv(),
    ensures
        final(config).inv(),
        final(config)@ == assigned(old(config)@, id@, models_view(previous), texts(next@)),
{
    replace_models(&mut config.upstream_models_by_provider, id, previous, next);
    replace_models(&mut config.selected_models_by_provider, id, previous, next);
}

/// A route whose description says what the route says.
pub open spec fn synced(p: ProfileV) -> ProfileV {
    ProfileV {
        plugin_route_spec: match p.plugin_route_spec {
            Some(spec) => Some(
                SpecV {
                    name: p.name,
                    base_url: p.normalized_base_url(),
                    short_name: p.short_name,
                    upstream_protocol: p.upstream_protocol,
                    ..spec
                },
            ),
            None => None,
        },
        ..p
    }
}

/// The configuration in the form in which it is stored, with descriptions that say what the routes
/// say where `sync`.
pub open spec fn stored(c: ConfigV, sync: bool) -> ConfigV {
    ConfigV {
        profiles: Seq::new(
            c.profiles.len(),
            |i: int|
                if sync {
                    synced(c.profiles[i].normalized())
                } else {
                    c.profiles[i].normalized()
                },
        ),
        ..c
    }
}

fn store(config: &mut CodeyConfig, sync: bool)
    requires
        old(config).inv(),
    ensures
        final(config).inv(),
        final(config)@ == stored(old(config)@, sync),
{
    let ghost all = profile_list(config.profiles@);
    let ghost goal = stored(config@, sync).profiles;
    let mut out: Vec<ProviderProfile> = Vec::new();
    let mut i: usize = 0;
    while i < config.profiles.len()
        invariant
            i <= config.profiles.len(),
            config.inv(),
            config@ == old(config)@,
            all == profile_list(config.profiles@),
            goal == stored(config@, sync).profiles,
            out.len() == i,
            forall|j: int| 0 <= j < i ==> (#[trigger] out@[j])@ == goal[j],
        decreases config.profiles.len() - i,
    {
        let mut p = config.profiles[i].copy();
        proof {
            assert(all[i as int] == p@);
        }
        p.normalize();
        if sync {
            let base_url = p.normalized_base_url();
            if let Some(spec) = &p.plugin_route_spec {
                let mut spec = spec.copy();
                spec.name = p.name.clone();
                spec.base_url = base_url;
                spec.short_name = p.short_name.clone();
                spec.upstream_protocol = p.upstream_protocol.clone();
                p.plugin_route_spec = Some(spec);
            }
        }
        proof {
            assert(p@ =~= goal[i as int]);
        }
        out.push(p);
        i = i + 1;
    }
    config.profiles = out;
    proof {
        assert(config@.profiles =~= goal);
    }
}

/// What a new route gets beside its description.
#[derive(Debug)]
pub struct RouteDraft {
    pub id: String,
    pub short_name: String,
    /// Identifiers that no route may have.
    pub reserved_ids: Vec<String>,
}

#[verifier::ext_equal]
pub struct DraftV {
    pub id: Seq<char>,
    pub short_name: Seq<char>,
    pub reserved_ids: Seq<Seq<char>>,
}

impl View for RouteDraft {
    type V = DraftV;

    open spec fn view(&self) -> DraftV {
        DraftV {
            id: self.id@,
            short_name: self.short_name@,
            reserved_ids: texts(self.reserved_ids@),
        }
    }
}

/// A route with nothing set but what a draft gives.
pub open spec fn blank_profile(draft: DraftV) -> ProfileV {
    ProfileV {
        id: draft.id,
        name: Seq::empty(),
        short_name: draft.short_name,
        base_url: Seq::empty(),
        upstream_protocol: Seq::empty(),
        model_request_headers: Seq::empty(),
        auth_mode: Seq::empty(),
        official_account: false,
        official_account_id: None,
        source_provider_id: None,
        api_key: Seq::empty(),
        api_key_configured: false,
        upstream_proxy: Seq::empty(),
        enabled: true,
        supports_remote_compaction: false,
        supports_websockets: false,
        supports_native_web_search: false,
        supports_auto_review: false,
        plugin_owner_id: None,
        plugin_route_spec: None,
    }
}

fn new_profile(draft: &RouteDraft) -> (r: ProviderProfile)
    ensures
        r@ == blank_profile(draft@),
{
    let r = ProviderProfile {
        id: draft.id.clone(),
        name: String::new(),
        short_name: draft.short_name.clone(),
        base_url: String::new(),
        upstream_protocol: String::new(),
        model_request_headers: Vec::new(),
        auth_mode: String::new(),
        official_account: false,
        official_account_id: None,
        source_provider_id: None,
        api_key: String::new(),
        api_key_configured: false,
        upstream_proxy: String::new(),
        enabled: true,
        supports_remote_compaction: false,
        supports_websockets: false,
        supports_native_web_search: false,
        supports_auto_review: false,
        plugin_owner_id: None,
        plugin_route_spec: None,
    };
    proof {
        assert(r@ =~= blank_profile(draft@));
    }
    r
}

/// The configuration after a plugin described its route, and the route; an error where the new
/// route would take an identifier that is reserved.
pub open spec fn upserted(
    c: ConfigV,
    plugin: Seq<char>,
    spec: SpecV,
    create_if_missing: bool,
    draft: DraftV,
) -> Result<(ConfigV, Option<Seq<char>>), Seq<char>> {
    let keep = reusable(c.profiles, plugin);
    let ids = removed_ids(c.profiles, plugin, keep, c.profiles.len() as int);
    let c1 = ConfigV { profiles: settled(c.profiles, plugin, keep), ..c };
    match keep {
        Some(i) => {
            let before = c1.profiles[i];
            let previous = match before.plugin_route_spec {
                Some(s) => Some(s.models),
                None => None,
            };
            let c2 = ConfigV {
                profiles: c1.profiles.update(i, applied(before, plugin, spec, true)),
                ..c1
            };
            let c3 = assigned(c2, before.provider_id(), previous, spec.models);
            Ok((stored(dropped(c3, ids), true), Some(before.id)))
        },
        None => if !create_if_missing {
            let c2 = dropped(c1, ids);
            Ok(
                (
                    if ids.len() > 0 {
                        stored(c2, false)
                    } else {
                        c2
                    },
                    None,
                ),
            )
        } else {
            let p = applied(blank_profile(draft), plugin, spec, false);
            if p.provider_id() == "codey_router"@ || draft.reserved_ids.contains(
                p.provider_id(),
            ) {
                Err("插件线路不能使用保留的 Provider ID"@)
            } else {
                let c2 = ConfigV { profiles: c1.profiles.push(p), ..c1 };
                let c3 = assigned(c2, p.provider_id(), None, spec.models);
                Ok((stored(dropped(c3, ids), true), Some(p.id)))
            }
        },
    }
}

/// The configuration once a plugin's routes with a key have become the user's own. It is left so
/// where the new route is refused.
pub open spec fn given_up_all(c: ConfigV, plugin: Seq<char>) -> ConfigV {
    ConfigV { profiles: settled(c.profiles, plugin, None), ..c }
}

/// Puts in a route that was checked before.
pub fn upsert_checked(
    config: &mut CodeyConfig,
    plugin_id: &str,
    spec: &PluginRouteSpec,
    create_if_missing: bool,
    draft: &RouteDraft,
) -> (r: Result<Option<String>, String>)
    requires
        old(config).inv(),
    ensures
        final(config).inv(),
        match r {
            Ok(id) => upserted(old(config)@, plugin_id@, spec@, create_if_missing, draft@) == Ok::<
                (ConfigV, Option<Seq<char>>),
                Seq<char>,
            >((final(config)@, string_view(id))),
            Err(e) => upserted(old(config)@, plugin_id@, spec@, create_if_missing, draft@) == Err::<
                (ConfigV, Option<Seq<char>>),
                Seq<char>,
            >(e@) && final(config)@ == given_up_all(old(config)@, plugin_id@),
        },
{
    let ghost c = config@;
    let keep = find_reusable(&config.profiles, plugin_id);
    let (profiles, removed) = settle(&config.profiles, plugin_id, keep);
    proof {
        assert(c.profiles.len() == config.profiles.len());
        assert(texts(removed@).len() == removed.len());
    }
    config.profiles = profiles;
    let ghost c1 = config@;
    if let Some(index) = keep {
        proof {
            assert(profile_list(config.profiles@).len() == config.profiles.len());
            assert(c1.profiles[index as int] == config.profiles@[index as int]@);
        }
        let mut p = config.profiles[index].copy();
        let provider_id = p.provider_id().to_owned();
        let previous = match &p.plugin_route_spec {
            Some(s) => Some(copy_texts(&s.models)),
            None => None,
        };
        apply_spec(&mut p, plugin_id, spec, true);
        let profile_id = p.id.clone();
        let ghost before = config.profiles@;
        config.profiles.set(index, p);
        proof {
            assert(profile_list(config.profiles@) =~= profile_list(before).update(
                index as int,
                p@,
            ));
        }
        assign_models(config, provider_id.as_str(), previous.as_ref(), &spec.models);
        drop_removed(config, &removed);
        store(config, true);
        return Ok(Some(profile_id));
    }
    if !create_if_missing {
        drop_removed(config, &removed);
        if removed.len() > 0 {
            store(config, false);
        }
        return Ok(None);
    }
    let mut p = new_profile(draft);
    apply_spec(&mut p, plugin_id, spec, false);
    let profile_id = p.id.clone();
    let provider_id = p.provider_id().to_owned();
    proof {
        listed_is_contained(draft.reserved_ids@, provider_id@);
    }
    if str_eq(provider_id.as_str(), ROUTER_PROVIDER_ID) || list_has(
        &draft.reserved_ids,
        provider_id.as_str(),
    ) {
        return Err("插件线路不能使用保留的 Provider ID".to_owned());
    }
    let ghost before = config.profiles@;
    config.profiles.push(p);
    proof {
        assert(profile_list(config.profiles@) =~= profile_list(before).push(p@));
    }
    assign_models(config, provider_id.as_str(), None, &spec.models);
    drop_removed(config, &removed);
    store(config, true);
    Ok(Some(profile_id))
}

/// The configuration after a plugin described its route. With the local router off nothing changes.
pub open spec fn upsert_result(
    c: ConfigV,
    plugin: Seq<char>,
    spec: Result<SpecV, Seq<char>>,
    create_if_missing: bool,
    draft: DraftV,
) -> Result<(ConfigV, Option<Seq<char>>), Seq<char>> {
    if !c.local_router_enabled {
        if create_if_missing {
            Err("本地路由已关闭，本地线路配置当前为只读；请先启用本地路由"@)
        } else {
            Ok((c, None))
        }
    } else {
        match spec {
            Err(e) => Err(e),
            Ok(s) => upserted(c, plugin, s, create_if_missing, draft),
        }
    }
}

/// Puts in the route that a plugin describes, or brings it up to date.
pub fn upsert(
    config: &mut CodeyConfig,
    plugin_id: &str,
    spec: PluginRouteSpec,
    create_if_missing: bool,
    draft: &RouteDraft,
) -> (r: Result<Option<String>, String>)
    requires
        old(config).inv(),
    ensures
        final(config).inv(),
        ({
            let goal = upsert_result(
                old(config)@,
                plugin_id@,
                normal_spec(spec@, url_parsed(normalized_url(spec.base_url@))),
                create_if_missing,
                draft@,
            );
            match r {
                Ok(id) => goal == Ok::<(ConfigV, Option<Seq<char>>), Seq<char>>(
                    (final(config)@, string_view(id)),
                ),
                Err(e) => goal == Err::<(ConfigV, Option<Seq<char>>), Seq<char>>(e@),
            }
        }),
        !old(config)@.local_router_enabled ==> final(config)@ == old(config)@,
        r is Err && old(config)@.local_router_enabled ==> final(config)@ == if normal_spec(
            spec@,
            url_parsed(normalized_url(spec.base_url@)),
        ) is Err {
            old(config)@
        } else {
            given_up_all(old(config)@, plugin_id@)
        },
{
    if !config.local_router_enabled {
        if create_if_missing {
            return Err(
                "本地路由已关闭，本地线路配置当前为只读；请先启用本地路由".to_owned(),
            );
        }
        return Ok(None);
    }
    match normalize_spec(spec) {
        Err(e) => Err(e),
        Ok(s) => upsert_checked(config, plugin_id, &s, create_if_missing, draft),
    }
}

/// The configuration once a plugin has given up its routes.
pub open spec fn released(c: ConfigV, plugin: Seq<char>) -> ConfigV {
    if forall|i: int|
        0 <= i < c.profiles.len() ==> (#[trigger] c.profiles[i]).plugin_owner_id != Some(plugin) {
        c
    } else {
        stored(
            dropped(
                ConfigV { profiles: settled(c.profiles, plugin, None), ..c },
                removed_ids(c.profiles, plugin, None, c.profiles.len() as int),
            ),
            false,
        )
    }
}

fn owns_any(profiles: &Vec<ProviderProfile>, plugin_id: &str) -> (r: bool)
    ensures
        r == !(forall|i: int|
            0 <= i < profile_list(profiles@).len() ==> (#[trigger] profile_list(
                profiles@,
            )[i]).plugin_owner_id != Some(plugin_id@)),
{
    let mut i: usize = 0;
    while i < profiles.len()
        invariant
            i <= profiles.len(),
            forall|j: int|
                0 <= j < i ==> (#[trigger] profile_list(profiles@)[j]).plugin_owner_id != Some(
                    plugin_id@,
                ),
        decreases profiles.len() - i,
    {
        if profiles[i].is_owned_by(plugin_id) {
            proof {
                let _ = profile_list(profiles@)[i as int];
                assert(profile_list(profiles@)[i as int].plugin_owner_id == Some(plugin_id@));
            }
            return true;
        }
        i = i + 1;
    }
    false
}

/// Lets a plugin give up its routes: those with a key become the user's own, the others go.
pub fn release(config: &mut CodeyConfig, plugin_id: &str)
    requires
        old(config).inv(),
    ensures
        final(config).inv(),
        final(config)@ == released(old(config)@, plugin_id@),
{
    if !owns_any(&config.profiles, plugin_id) {
        return ;
    }
    let (profiles, removed) = settle(&config.profiles, plugin_id, None);
    proof {
        assert(profile_list(config.profiles@).len() == config.profiles.len());
    }
    config.profiles = profiles;
    drop_removed(config, &removed);
    store(config, false);
}

proof fn lemma_removed_has(profiles: Seq<ProfileV>, plugin: Seq<char>, keep: Option<int>, n: int, i: int)
    requires
        0 <= i < n <= profiles.len(),
        keep != Some(i),
        profiles[i].plugin_owner_id == Some(plugin),
        !profiles[i].has_key(),
    ensures
        removed_ids(profiles, plugin, keep, n).contains(profiles[i].provider_id()),
    decreases n,
{
    let rest = removed_ids(profiles, plugin, keep, n - 1);
    if i == n - 1 {
        let all = rest.push(profiles[i].provider_id());
        assert(all[all.len() - 1] == profiles[i].provider_id());
    } else {
        lemma_removed_has(profiles, plugin, keep, n - 1, i);
        let k = choose|k: int| 0 <= k < rest.len() && rest[k] == profiles[i].provider_id();
        assert(removed_ids(profiles, plugin, keep, n)[k] == profiles[i].provider_id());
    }
}

proof fn lemma_remaining_from(profiles: Seq<ProfileV>, ids: Seq<Seq<char>>, k: int) -> (i: int)
    requires
        0 <= k < remaining(profiles, ids).len(),
    ensures
        0 <= i < profiles.len(),
        remaining(profiles, ids)[k] == profiles[i],
        !ids.contains(profiles[i].provider_id()),
    decreases profiles.len(),
{
    let rest = remaining(profiles.drop_last(), ids);
    if k < rest.len() {
        let i = lemma_remaining_from(profiles.drop_last(), ids, k);
        assert(profiles.drop_last()[i] == profiles[i]);
        i
    } else {
        profiles.len() - 1
    }
}

/// Once a plugin has given up its routes, it has none left.
pub proof fn a_released_plugin_has_no_route(c: ConfigV, plugin: Seq<char>, k: int)
    requires
        0 <= k < released(c, plugin).profiles.len(),
    ensures
        released(c, plugin).profiles[k].plugin_owner_id != Some(plugin),
{
    let given = settled(c.profiles, plugin, None);
    let ids = removed_ids(c.profiles, plugin, None, c.profiles.len() as int);
    if exists|i: int|
        0 <= i < c.profiles.len() && (#[trigger] c.profiles[i]).plugin_owner_id == Some(plugin) {
        let i = if ids.len() == 0 {
            k
        } else {
            lemma_remaining_from(given, ids, k)
        };
        if c.profiles[i].plugin_owner_id == Some(plugin) && !c.profiles[i].has_key() {
            lemma_removed_has(c.profiles, plugin, None, c.profiles.len() as int, i);
            assert(given[i].provider_id() == c.profiles[i].provider_id());
            assert(ids.contains(given[i].provider_id()));
        }
    } else {
        let _ = c.profiles[k];
    }
}

proof fn lemma_remaining_keeps(profiles: Seq<ProfileV>, ids: Seq<Seq<char>>, i: int) -> (k: int)
    requires
        0 <= i < profiles.len(),
        !ids.contains(profiles[i].provider_id()),
    ensures
        0 <= k < remaining(profiles, ids).len(),
        remaining(profiles, ids)[k] == profiles[i],
    decreases profiles.len(),
{
    let rest = remaining(profiles.drop_last(), ids);
    if i == profiles.len() - 1 {
        rest.len() as int
    } else {
        let k = lemma_remaining_keeps(profiles.drop_last(), ids, i);
        assert(remaining(profiles, ids)[k] == rest[k]);
        k
    }
}

/// A route whose key was saved outlives its plugin: it stays, with its key, as the user's own,
/// unless it shares its identifier with a route that goes.
pub proof fn a_saved_key_keeps_the_route(c: ConfigV, plugin: Seq<char>, i: int) -> (k: int)
    requires
        0 <= i < c.profiles.len(),
        c.profiles[i].plugin_owner_id == Some(plugin),
        c.profiles[i].has_key(),
        !removed_ids(c.profiles, plugin, None, c.profiles.len() as int).contains(
            c.profiles[i].provider_id(),
        ),
    ensures
        0 <= k < released(c, plugin).profiles.len(),
        released(c, plugin).profiles[k] == c.profiles[i].detached().normalized(),
{
    let given = settled(c.profiles, plugin, None);
    let ids = removed_ids(c.profiles, plugin, None, c.profiles.len() as int);
    assert(given[i] == c.profiles[i].detached());
    let _ = c.profiles[i];
    if ids.len() == 0 {
        i
    } else {
        assert(given[i].provider_id() == c.profiles[i].provider_id());
        lemma_remaining_keeps(given, ids, i)
    }
}

proof fn lemma_remaining_two(profiles: Seq<ProfileV>, ids: Seq<Seq<char>>, k: int, m: int) -> (r: (
    int,
    int,
))
    requires
        0 <= k < m < remaining(profiles, ids).len(),
    ensures
        0 <= r.0 < r.1 < profiles.len(),
        remaining(profiles, ids)[k] == profiles[r.0],
        remaining(profiles, ids)[m] == profiles[r.1],
        !ids.contains(profiles[r.0].provider_id()),
        !ids.contains(profiles[r.1].provider_id()),
    decreases profiles.len(),
{
    let rest = remaining(profiles.drop_last(), ids);
    if m < rest.len() {
        let (i, j) = lemma_remaining_two(profiles.drop_last(), ids, k, m);
        assert(profiles.drop_last()[i] == profiles[i]);
        assert(profiles.drop_last()[j] == profiles[j]);
        (i, j)
    } else {
        let i = lemma_remaining_from(profiles.drop_last(), ids, k);
        assert(profiles.drop_last()[i] == profiles[i]);
        (i, profiles.len() - 1)
    }
}

/// The routes before those that go are taken out: the plugin's are the one that it keeps and those
/// that go.
pub open spec fn one_kept(list: Seq<ProfileV>, plugin: Seq<char>, keep: int, ids: Seq<Seq<char>>) -> bool {
    forall|i: int|
        0 <= i < list.len() && (#[trigger] list[i]).plugin_owner_id == Some(plugin) && i != keep
            ==> ids.contains(list[i].provider_id())
}

/// The routes once those that go are taken out.
pub open spec fn left_over(list: Seq<ProfileV>, ids: Seq<Seq<char>>) -> Seq<ProfileV> {
    if ids.len() == 0 {
        list
    } else {
        remaining(list, ids)
    }
}

proof fn lemma_one_left(list: Seq<ProfileV>, plugin: Seq<char>, keep: int, ids: Seq<Seq<char>>, k: int, m: int)
    requires
        one_kept(list, plugin, keep, ids),
        0 <= k < m < left_over(list, ids).len(),
    ensures
        left_over(list, ids)[k].plugin_owner_id != Some(plugin) || left_over(
            list,
            ids,
        )[m].plugin_owner_id != Some(plugin),
{
    let (i, j) = if ids.len() == 0 {
        (k, m)
    } else {
        lemma_remaining_two(list, ids, k, m)
    };
    assert(list[i] == left_over(list, ids)[k]);
    assert(list[j] == left_over(list, ids)[m]);
}

/// However many routes a plugin had, after it has described its route it has one at most.
pub proof fn a_plugin_has_one_route(
    c: ConfigV,
    plugin: Seq<char>,
    spec: SpecV,
    create_if_missing: bool,
    draft: DraftV,
    k: int,
    m: int,
)
    requires
        upserted(c, plugin, spec, create_if_missing, draft) matches Ok((after, _)) && 0 <= k < m
            < after.profiles.len(),
    ensures
        upserted(c, plugin, spec, create_if_missing, draft) matches Ok((after, _)) && !(
        after.profiles[k].plugin_owner_id == Some(plugin) && after.profiles[m].plugin_owner_id
            == Some(plugin)),
{
    let keep = reusable(c.profiles, plugin);
    let n = c.profiles.len() as int;
    let ids = removed_ids(c.profiles, plugin, keep, n);
    let given = settled(c.profiles, plugin, keep);
    let after = (upserted(c, plugin, spec, create_if_missing, draft)->Ok_0).0;
    lemma_first_owned(c.profiles, plugin, true, n, n);
    lemma_first_owned(c.profiles, plugin, false, n, n);
    assert forall|i: int|
        0 <= i < n && (#[trigger] given[i]).plugin_owner_id == Some(plugin) && keep != Some(
            i,
        ) implies ids.contains(given[i].provider_id()) by {
        assert(c.profiles[i].plugin_owner_id == Some(plugin));
        assert(!c.profiles[i].has_key());
        lemma_removed_has(c.profiles, plugin, keep, n, i);
    }
    if after.profiles[k].plugin_owner_id == Some(plugin) && after.profiles[m].plugin_owner_id
        == Some(plugin) {
        match keep {
            Some(i) => {
                let list = given.update(i, applied(given[i], plugin, spec, true));
                assert forall|j: int|
                    0 <= j < list.len() && (#[trigger] list[j]).plugin_owner_id == Some(plugin) && j
                        != i implies ids.contains(list[j].provider_id()) by {
                    assert(list[j] == given[j]);
                }
                lemma_one_left(list, plugin, i, ids, k, m);
            },
            None => if !create_if_missing {
                assert(one_kept(given, plugin, -1, ids));
                lemma_one_left(given, plugin, -1, ids, k, m);
            } else {
                let p = applied(blank_profile(draft), plugin, spec, false);
                let list = given.push(p);
                assert forall|j: int|
                    0 <= j < list.len() && (#[trigger] list[j]).plugin_owner_id == Some(plugin) && j
                        != n implies ids.contains(list[j].provider_id()) by {
                    assert(list[j] == given[j]);
                }
                lemma_one_left(list, plugin, n, ids, k, m);
            },
        }
    }
}

/// What the user has chosen for a route is not replaced by what its plugin says.
pub proof fn chosen_models_stay(
    table: Seq<(Seq<char>, Seq<Seq<char>>)>,
    id: Seq<char>,
    previous: Option<Seq<Seq<char>>>,
    next: Seq<Seq<char>>,
    chosen: Seq<Seq<char>>,
)
    requires
        lookup(table, id) == Some(chosen),
        previous matches Some(p) ==> !lists_match(chosen, p),
    ensures
        replaced_models(table, id, previous, next) == table,
{
}

/// A plugin's route is what the plugin says of it: its name, its address, its protocol and its
/// headers; it is the plugin's own and no official account's.
pub proof fn a_route_is_as_its_plugin_describes_it(
    p: ProfileV,
    plugin: Seq<char>,
    spec: SpecV,
    keep_user_fields: bool,
)
    ensures
        ({
            let after = applied(p, plugin, spec, keep_user_fields);
            &&& after.name == trim(spec.name)
            &&& after.base_url == normalized_url(spec.base_url)
            &&& after.upstream_protocol == spec.upstream_protocol
            &&& after.model_request_headers == spec.headers
            &&& after.plugin_owner_id == Some(plugin)
            &&& after.auth_mode == "apiKey"@ && !after.official_account
            &&& after.official_account_id is None && after.source_provider_id is None
            &&& after.id == p.id && after.short_name == p.short_name
            &&& after.plugin_route_spec matches Some(kept) && kept.models == spec.models
                && kept.name == spec.name && kept.headers == spec.headers
        }),
{
}

/// What the user has set for a route outlives a new description, and a new route starts without any
/// of it, and in use.
pub proof fn what_the_user_set_stays(
    p: ProfileV,
    plugin: Seq<char>,
    spec: SpecV,
    keep_user_fields: bool,
)
    ensures
        ({
            let after = applied(p, plugin, spec, keep_user_fields);
            &&& keep_user_fields ==> after.api_key == p.api_key && after.api_key_configured
                == p.api_key_configured && after.upstream_proxy == p.upstream_proxy && after.enabled
                == p.enabled && after.supports_remote_compaction == p.supports_remote_compaction
                && after.supports_websockets == p.supports_websockets
                && after.supports_native_web_search == p.supports_native_web_search
                && after.supports_auto_review == p.supports_auto_review
            &&& !keep_user_fields ==> after.api_key.len() == 0 && !after.api_key_configured
                && after.upstream_proxy.len() == 0 && after.enabled
                && !after.supports_remote_compaction && !after.supports_websockets
                && !after.supports_native_web_search && !after.supports_auto_review
        }),
{
}

proof fn lemma_without_keys<V>(table: Seq<(Seq<char>, V)>, ids: Seq<Seq<char>>, id: Seq<char>)
    ensures
        lookup(without_keys(table, ids), id) == if ids.contains(id) {
            None
        } else {
            lookup(table, id)
        },
    decreases ids.len(),
{
    if ids.len() > 0 {
        let rest = ids.drop_last();
        lemma_without_keys(table, rest, id);
        remove_then_look(without_keys(table, rest), ids.last(), id);
        assert(ids[ids.len() - 1] == ids.last());
        if rest.contains(id) {
            let i = choose|i: int| 0 <= i < rest.len() && rest[i] == id;
            assert(ids[i] == id);
        }
        if ids.contains(id) && id != ids.last() {
            let i = choose|i: int| 0 <= i < ids.len() && ids[i] == id;
            assert(rest[i] == id);
        }
    }
}

/// A route that goes leaves nothing behind: what the configuration says of it goes too, and what it
/// says of every other route stays.
pub proof fn a_dropped_route_leaves_nothing(c: ConfigV, ids: Seq<Seq<char>>, id: Seq<char>)
    ensures
        ({
            let after = dropped(c, ids);
            let gone = ids.contains(id);
            &&& gone ==> lookup(after.upstream_models, id) is None && lookup(
                after.selected_models,
                id,
            ) is None && lookup(after.contexts, id) is None && lookup(after.efforts, id) is None
                && lookup(after.manual_models, id) is None && lookup(after.declared_models, id) is None
            &&& !gone ==> lookup(after.upstream_models, id) == lookup(c.upstream_models, id) && lookup(
                after.selected_models,
                id,
            ) == lookup(c.selected_models, id) && lookup(after.contexts, id) == lookup(
                c.contexts,
                id,
            ) && lookup(after.efforts, id) == lookup(c.efforts, id) && lookup(
                after.manual_models,
                id,
            ) == lookup(c.manual_models, id) && lookup(after.declared_models, id) == lookup(
                c.declared_models,
                id,
            )
            &&& forall|k: int|
                0 <= k < after.profiles.len() && gone ==> (#[trigger] after.profiles[k]).provider_id()
                    != id
        }),
{
    lemma_without_keys(c.upstream_models, ids, id);
    lemma_without_keys(c.selected_models, ids, id);
    lemma_without_keys(c.contexts, ids, id);
    lemma_without_keys(c.efforts, ids, id);
    lemma_without_keys(c.manual_models, ids, id);
    lemma_without_keys(c.declared_models, ids, id);
    let after = dropped(c, ids);
    if ids.contains(id) {
        assert forall|k: int| 0 <= k < after.profiles.len() implies (
        #[trigger] after.profiles[k]).provider_id() != id by {
            let i = lemma_remaining_from(c.profiles, ids, k);
        }
    }
}

/// A plugin may describe a route exactly where the route has a name of one to fifteen characters, an
/// address that can be called, and a protocol that is spoken here.
pub proof fn a_description_is_checked(spec: SpecV, url: Option<UrlV>)
    ensures
        normal_spec(spec, url) is Ok <==> 1 <= trim(spec.name).len() <= 15 && is_outbound(url) && (
        spec.upstream_protocol == "openaiResponses"@ || spec.upstream_protocol
            == "openaiChatCompletions"@ || spec.upstream_protocol == "anthropicMessages"@),
        normal_spec(spec, url) matches Ok(normal) ==> normal.name == trim(spec.name)
            && normal.upstream_protocol == spec.upstream_protocol && normal.models == spec.models
            && normal.base_url == normalized_url(spec.base_url),
{
}

/// A plugin keeps a route that the user edited only where it still is as the plugin described it;
/// else the route becomes the user's own, with everything that the user set, which takes a key.
pub proof fn an_edited_route_is_the_users(p: ProfileV, previous: ProfileV)
    ensures
        ({
            let r = retained(p, previous);
            let after = r->Ok_0;
            let kept = ProfileV {
                plugin_owner_id: previous.plugin_owner_id,
                plugin_route_spec: previous.plugin_route_spec,
                ..p
            };
            let as_described = previous.plugin_owner_id is Some && structure_matches(kept);
            &&& r is Ok <==> previous.plugin_owner_id is None || structure_matches(kept) || trim(
                p.api_key,
            ).len() > 0
            &&& r is Ok ==> after.name == p.name && after.api_key == p.api_key && after.base_url
                == p.base_url && after.model_request_headers == p.model_request_headers
                && after.upstream_protocol == p.upstream_protocol && after.enabled == p.enabled
            &&& r is Ok && as_described ==> after.plugin_owner_id == previous.plugin_owner_id
            &&& r is Ok && !as_described ==> after.plugin_owner_id is None
                && after.plugin_route_spec is None
        }),
{
}

/// The route is the plugin's and stands as the plugin described it.
pub open spec fn stands_as_described(p: ProfileV, plugin: Seq<char>) -> bool {
    p.plugin_owner_id == Some(plugin) && structure_matches(p)
}

/// The route is the plugin's and has no key.
pub open spec fn is_unused(p: ProfileV, plugin: Seq<char>) -> bool {
    p.plugin_owner_id == Some(plugin) && trim(p.api_key).len() == 0
}

proof fn lemma_owned_at(profiles: Seq<ProfileV>, plugin: Seq<char>, matching: bool, n: int, i: int)
    requires
        0 <= n <= profiles.len(),
    ensures
        0 <= i < n && (if matching {
            stands_as_described(profiles[i], plugin)
        } else {
            is_unused(profiles[i], plugin)
        }) && (forall|j: int|
            0 <= j < i ==> !(if matching {
                stands_as_described(#[trigger] profiles[j], plugin)
            } else {
                is_unused(profiles[j], plugin)
            })) ==> first_owned(profiles, plugin, matching, n) == Some(i),
        (forall|j: int|
            0 <= j < n ==> !(if matching {
                stands_as_described(#[trigger] profiles[j], plugin)
            } else {
                is_unused(profiles[j], plugin)
            })) ==> first_owned(profiles, plugin, matching, n) is None,
    decreases n,
{
    if n > 0 {
        lemma_owned_at(profiles, plugin, matching, n - 1, i);
        let _ = profiles[n - 1];
    }
}

/// A plugin that describes its route again finds it: the first of its routes that stands as it was
/// described, and only where there is none the first without a key. That route keeps its identifier;
/// where there is neither, none is made unless one is asked for.
pub proof fn a_plugin_finds_its_route_again(
    c: ConfigV,
    plugin: Seq<char>,
    spec: SpecV,
    create_if_missing: bool,
    draft: DraftV,
    i: int,
)
    requires
        0 <= i < c.profiles.len(),
    ensures
        ({
            let r = upserted(c, plugin, spec, create_if_missing, draft);
            let none_stands = forall|j: int|
                0 <= j < c.profiles.len() ==> !stands_as_described(#[trigger] c.profiles[j], plugin);
            let first_stands = stands_as_described(c.profiles[i], plugin) && forall|j: int|
                0 <= j < i ==> !stands_as_described(#[trigger] c.profiles[j], plugin);
            let none_unused = forall|j: int|
                0 <= j < c.profiles.len() ==> !is_unused(#[trigger] c.profiles[j], plugin);
            let first_unused = is_unused(c.profiles[i], plugin) && forall|j: int|
                0 <= j < i ==> !is_unused(#[trigger] c.profiles[j], plugin);
            &&& first_stands ==> r is Ok && (r->Ok_0).1 == Some(c.profiles[i].id)
            &&& none_stands && first_unused ==> r is Ok && (r->Ok_0).1 == Some(c.profiles[i].id)
            &&& none_stands && none_unused && !create_if_missing ==> r is Ok && (r->Ok_0).1 is None
        }),
{
    let n = c.profiles.len() as int;
    lemma_owned_at(c.profiles, plugin, true, n, i);
    lemma_owned_at(c.profiles, plugin, false, n, i);
    lemma_first_owned(c.profiles, plugin, true, n, n);
    lemma_first_owned(c.profiles, plugin, false, n, n);
}

} // verus!
