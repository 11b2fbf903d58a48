//! The plugins that marketplaces offer.
use crate::json::{
    Json, JsonV, parse_text, string_view, text_parsed, text_view, views, with_then_get,
};
use crate::text::{
    Sep, cat3, list_has, listed_is_contained, split, split_text, texts, texts_push, trim, trimmed,
};
use vstd::prelude::*;
use vstd::string::*;

verus! {

/// The tables inside one table of a settings file, each with a flag in it where it has that flag,
/// as `toml_edit` finds them; nothing where the text is no such file or has no such table.
pub uninterp spec fn toml_flags(text: Seq<char>, table: Seq<char>, flag: Seq<char>) -> Option<
    Seq<(Seq<char>, Option<bool>)>,
>;

pub open spec fn flags_view(v: Seq<(String, Option<bool>)>) -> Seq<(Seq<char>, Option<bool>)> {
    Seq::new(v.len(), |i: int| (v[i].0@, v[i].1))
}

/// `toml_edit::DocumentMut` parsed from a text, with `get`, `as_table_like`, `iter` and `as_bool`:
/// the entries of one table, in the order in which they stand, with one flag of each. It depends on
/// the text and the two names alone.
#[verifier::external_body]
fn read_toml_flags(text: &str, table: &str, flag: &str) -> (r: Option<Vec<(String, Option<bool>)>>)
    ensures
        match r {
            Some(v) => toml_flags(text@, table@, flag@) == Some(flags_view(v@)),
            None => toml_flags(text@, table@, flag@) is None,
        },
{
    let document = text.parse::<toml_edit::DocumentMut>().ok()?;
    let entries = document.get(table).and_then(|item| item.as_table_like())?;
    let flag_of = |item: &toml_edit::Item| {
        item.as_table_like().and_then(|t| t.get(flag)).and_then(|value| value.as_bool())
    };
    Some(entries.iter().map(|(key, item)| (key.to_string(), flag_of(item))).collect())
}

/// The names of the entries that are not switched off.
pub open spec fn switched_on(entries: Seq<(Seq<char>, Option<bool>)>) -> Seq<Seq<char>>
    decreases entries.len(),
{
    if entries.len() == 0 {
        Seq::empty()
    } else {
        let rest = switched_on(entries.drop_last());
        if entries.last().1 == Some(false) {
            rest
        } else {
            rest.push(entries.last().0)
        }
    }
}

/// The names of the entries that are not switched off.
pub fn enabled_entries(entries: &Vec<(String, Option<bool>)>) -> (r: Vec<String>)
    ensures
        texts(r@) == switched_on(flags_view(entries@)),
{
    let ghost all = flags_view(entries@);
    let mut out: Vec<String> = Vec::new();
    let mut i: usize = 0;
    proof {
        assert(texts(out@) =~= switched_on(all.subrange(0, 0)));
    }
    while i < entries.len()
        invariant
            i <= entries.len(),
            all == flags_view(entries@),
            texts(out@) == switched_on(all.subrange(0, i as int)),
        decreases entries.len() - i,
    {
        proof {
            assert(all.subrange(0, i + 1).drop_last() =~= all.subrange(0, i as int));
            assert(all.subrange(0, i + 1).last() == all[i as int]);
        }
        let on = match entries[i].1 {
            Some(b) => b,
            None => true,
        };
        if on {
            let name = entries[i].0.clone();
            proof {
                texts_push(out@, name);
            }
            out.push(name);
        }
        i = i + 1;
    }
    proof {
        assert(all.subrange(0, i as int) =~= all);
    }
    out
}

/// The plugins that a settings file has installed.
pub open spec fn installed_in(text: Option<Seq<char>>) -> Seq<Seq<char>> {
    match text {
        None => Seq::empty(),
        Some(t) => match toml_flags(t, "plugins"@, "enabled"@) {
            None => Seq::empty(),
            Some(entries) => switched_on(entries),
        },
    }
}

/// The plugins that a settings file has installed.
pub fn installed_plugins(text: Option<&str>) -> (r: Vec<String>)
    ensures
        texts(r@) == installed_in(text_view(text)),
{
    if let Some(t) = text {
        if let Some(entries) = read_toml_flags(t, "plugins", "enabled") {
            return enabled_entries(&entries);
        }
    }
    let none: Vec<String> = Vec::new();
    proof {
        assert(texts(none@) =~= Seq::empty());
    }
    none
}

/// The name of a plugin: its name, or what its identifier says before the first `@`.
pub open spec fn plugin_name(entry: JsonV) -> Seq<char> {
    match entry.get_str("name"@) {
        Some(name) => trim(name),
        None => match entry.get_str("id"@) {
            Some(id) => trim(split(id, Sep::Char('@'))[0]),
            None => trim(Seq::empty()),
        },
    }
}

fn name_of(entry: &Json) -> (r: String)
    ensures
        r@ == plugin_name(entry@),
{
    match entry.get_str("name") {
        Some(name) => trimmed(name),
        None => match entry.get_str("id") {
            Some(id) => {
                let parts = split_text(id, Sep::Char('@'));
                proof {
                    assert(texts(parts@).len() > 0);
                    assert(texts(parts@)[0] == parts@[0]@);
                }
                trimmed(parts[0].as_str())
            },
            None => trimmed(String::new().as_str()),
        },
    }
}

/// A plugin that a marketplace offers.
#[derive(Debug)]
pub struct PluginEntry {
    pub name: String,
    pub id: String,
    pub marketplace_name: String,
    /// What the marketplace says of it.
    pub document: Json,
}

#[verifier::ext_equal]
pub struct EntryV {
    pub name: Seq<char>,
    pub id: Seq<char>,
    pub marketplace_name: Seq<char>,
    pub document: JsonV,
}

impl View for PluginEntry {
    type V = EntryV;

    open spec fn view(&self) -> EntryV {
        EntryV {
            name: self.name@,
            id: self.id@,
            marketplace_name: self.marketplace_name@,
            document: self.document@,
        }
    }
}

pub open spec fn entry_list(v: Seq<PluginEntry>) -> Seq<EntryV> {
    Seq::new(v.len(), |i: int| v[i]@)
}

pub open spec fn marketplace_name(market: JsonV) -> Seq<char> {
    match market.get_str("name"@) {
        Some(name) => name,
        None => "local"@,
    }
}

/// The plugins among the entries of a marketplace: those that are objects and have a name.
pub open spec fn entries_in(items: Seq<JsonV>, market: Seq<char>) -> Seq<EntryV>
    decreases items.len(),
{
    if items.len() == 0 {
        Seq::empty()
    } else {
        let rest = entries_in(items.drop_last(), market);
        let name = plugin_name(items.last());
        if items.last().is_object() && name.len() > 0 {
            rest.push(
                EntryV {
                    name,
                    id: name + "@"@ + market,
                    marketplace_name: market,
                    document: items.last(),
                },
            )
        } else {
            rest
        }
    }
}

/// The plugins that a marketplace offers.
pub open spec fn offered(market: JsonV) -> Seq<EntryV> {
    match market.get_array("plugins"@) {
        None => Seq::empty(),
        Some(items) => entries_in(items, marketplace_name(market)),
    }
}

/// The plugins that a marketplace offers.
pub fn marketplace_entries(market: &Json) -> (r: Vec<PluginEntry>)
    ensures
        entry_list(r@) == offered(market@),
{
    let mut out: Vec<PluginEntry> = Vec::new();
    let market_name = match market.get_str("name") {
        Some(name) => name.to_owned(),
        None => "local".to_owned(),
    };
    let items = match market.get_array("plugins") {
        None => {
            proof {
                assert(entry_list(out@) =~= Seq::empty());
            }
            return out;
        },
        Some(items) => items,
    };
    let ghost all = views(items@);
    let mut i: usize = 0;
    proof {
        assert(entry_list(out@) =~= entries_in(all.subrange(0, 0), market_name@));
    }
    while i < items.len()
        invariant
            i <= items.len(),
            all == views(items@),
            entry_list(out@) == entries_in(all.subrange(0, i as int), market_name@),
        decreases items.len() - i,
    {
        proof {
            assert(all.subrange(0, i + 1).drop_last() =~= all.subrange(0, i as int));
            assert(all.subrange(0, i + 1).last() == items@[i as int]@);
        }
        if items[i].is_object() {
            let name = name_of(&items[i]);
            if !name.as_str().is_empty() {
                let id = cat3(name.as_str(), "@", market_name.as_str());
                let entry = PluginEntry {
                    name,
                    id,
                    marketplace_name: market_name.clone(),
                    document: items[i].clone_json(),
                };
                let ghost before = out@;
                out.push(entry);
                proof {
                    assert(entry_list(out@) =~= entry_list(before).push(entry@));
                }
            }
        }
        i = i + 1;
    }
    proof {
        assert(all.subrange(0, i as int) =~= all);
    }
    out
}

/// The plugins in a marketplace file; none where it is no document.
pub fn read_marketplace(text: &str) -> (r: Vec<PluginEntry>)
    ensures
        entry_list(r@) == match text_parsed(text@) {
            Ok(market) => offered(market),
            Err(_) => Seq::empty(),
        },
{
    match parse_text(text) {
        Ok(market) => marketplace_entries(&market),
        Err(_) => {
            let out: Vec<PluginEntry> = Vec::new();
            proof {
                assert(entry_list(out@) =~= Seq::empty());
            }
            out
        },
    }
}

/// What a manifest adds to a plugin.
pub open spec fn manifest_keys() -> Seq<Seq<char>> {
    seq![
        "displayName"@,
        "description"@,
        "keywords"@,
        "interface"@,
        "logoPath"@,
        "composerIconPath"@,
    ]
}

/// A plugin with one more member of its manifest, where it does not have it.
pub open spec fn with_manifest_key(plugin: JsonV, manifest: JsonV, key: Seq<char>) -> JsonV {
    match manifest.get(key) {
        Some(value) => if plugin.has(key) {
            plugin
        } else {
            plugin.with(key, value)
        },
        None => plugin,
    }
}

/// A plugin with the first members of its manifest.
pub open spec fn with_manifest(plugin: JsonV, manifest: JsonV, n: int) -> JsonV
    decreases n,
{
    if n <= 0 {
        plugin
    } else {
        with_manifest_key(
            with_manifest(plugin, manifest, n - 1),
            manifest,
            manifest_keys()[n - 1],
        )
    }
}

fn merge_key(plugin: &mut Json, manifest: &Json, key: &str)
    ensures
        final(plugin)@ == with_manifest_key(old(plugin)@, manifest@, key@),
{
    if let Some(value) = manifest.get(key) {
        if !plugin.has(key) {
            plugin.insert(key, value.clone_json());
        }
    }
}

/// Adds what a manifest says to a plugin. What the marketplace says stays.
pub fn merge_manifest(plugin: &mut Json, manifest: &Json)
    ensures
        final(plugin)@ == with_manifest(old(plugin)@, manifest@, 6),
{
    merge_key(plugin, manifest, "displayName");
    merge_key(plugin, manifest, "description");
    merge_key(plugin, manifest, "keywords");
    merge_key(plugin, manifest, "interface");
    merge_key(plugin, manifest, "logoPath");
    merge_key(plugin, manifest, "composerIconPath");
    proof {
        reveal_with_fuel(with_manifest, 7);
    }
}

/// Adds what the text of a manifest says to a plugin; nothing where it is no document.
pub fn merge_manifest_text(plugin: &mut Json, text: &str)
    ensures
        final(plugin)@ == match text_parsed(text@) {
            Ok(manifest) => with_manifest(old(plugin)@, manifest, 6),
            Err(_) => old(plugin)@,
        },
{
    if let Ok(manifest) = parse_text(text) {
        merge_manifest(plugin, &manifest);
    }
}

/// A plugin as it is listed.
pub open spec fn listed_plugin(
    entry: EntryV,
    marketplace_path: Seq<char>,
    local_path: Seq<char>,
    installed: Seq<Seq<char>>,
    manifest: Option<Seq<char>>,
) -> JsonV {
    let plugin = entry.document.with("name"@, JsonV::Str(entry.name)).with(
        "id"@,
        JsonV::Str(entry.id),
    ).with("marketplaceName"@, JsonV::Str(entry.marketplace_name)).with(
        "marketplacePath"@,
        JsonV::Str(marketplace_path),
    ).with("localPath"@, JsonV::Str(local_path)).with(
        "installed"@,
        JsonV::Bool(installed.contains(entry.id)),
    );
    match manifest {
        Some(text) => match text_parsed(text) {
            Ok(m) => with_manifest(plugin, m, 6),
            Err(_) => plugin,
        },
        None => plugin,
    }
}

/// A plugin as it is listed, with what the text of its manifest says, where it has one.
pub fn list_plugin(
    entry: &PluginEntry,
    marketplace_path: &str,
    local_path: &str,
    installed: &Vec<String>,
    manifest: Option<&str>,
) -> (r: Json)
    ensures
        r@ == listed_plugin(
            entry@,
            marketplace_path@,
            local_path@,
            texts(installed@),
            text_view(manifest),
        ),
{
    proof {
        listed_is_contained(installed@, entry.id@);
    }
    let mut plugin = entry.document.clone_json().with("name", Json::str(entry.name.as_str())).with(
        "id",
        Json::str(entry.id.as_str()),
    ).with("marketplaceName", Json::str(entry.marketplace_name.as_str())).with(
        "marketplacePath",
        Json::str(marketplace_path),
    ).with("localPath", Json::str(local_path)).with(
        "installed",
        Json::bool(list_has(installed, entry.id.as_str())),
    );
    if let Some(text) = manifest {
        merge_manifest_text(&mut plugin, text);
    }
    plugin
}

/// The answer to a request for the plugins.
pub fn list_plugins(plugins: Vec<Json>) -> (r: Json)
    ensures
        r@ == JsonV::obj().with("plugins"@, JsonV::Array(views(plugins@))).with(
            "count"@,
            JsonV::Unsigned(plugins.len() as u64),
        ),
{
    let count = plugins.len() as u64;
    Json::obj().with("plugins", Json::array(plugins)).with("count", Json::unsigned(count))
}

/// How a marketplace stands.
#[derive(Debug)]
pub struct MarketplaceStatus {
    pub root: Option<String>,
    pub registered: bool,
}

pub open spec fn root_document(root: Option<Seq<char>>) -> JsonV {
    match root {
        Some(path) => JsonV::Str(path),
        None => JsonV::Null,
    }
}

fn root_json(root: &Option<String>) -> (r: Json)
    ensures
        r@ == root_document(string_view(*root)),
{
    match root {
        Some(path) => Json::str(path.as_str()),
        None => Json::null(),
    }
}

/// What is told of the marketplaces after they were put in order.
pub fn ensure_marketplaces(
    official: &MarketplaceStatus,
    remote: &MarketplaceStatus,
    initialized_remote: bool,
    configured_remote: bool,
    curated_changed: bool,
    role_changed: bool,
) -> (r: Json)
    ensures
        r@ == JsonV::obj().with(
            "officialMarketplace"@,
            JsonV::Bool(official.root is Some),
        ).with("officialRegistered"@, JsonV::Bool(official.registered)).with(
            "officialPath"@,
            root_document(string_view(official.root)),
        ).with("remoteMarketplace"@, JsonV::Bool(remote.root is Some)).with(
            "remoteRegistered"@,
            JsonV::Bool(remote.registered),
        ).with("remotePath"@, root_document(string_view(remote.root))).with(
            "initializedRemote"@,
            JsonV::Bool(initialized_remote),
        ).with("configuredRemote"@, JsonV::Bool(configured_remote)).with(
            "configChanged"@,
            JsonV::Bool(curated_changed || role_changed),
        ),
{
    Json::obj().with("officialMarketplace", Json::bool(official.root.is_some())).with(
        "officialRegistered",
        Json::bool(official.registered),
    ).with("officialPath", root_json(&official.root)).with(
        "remoteMarketplace",
        Json::bool(remote.root.is_some()),
    ).with("remoteRegistered", Json::bool(remote.registered)).with(
        "remotePath",
        root_json(&remote.root),
    ).with("initializedRemote", Json::bool(initialized_remote)).with(
        "configuredRemote",
        Json::bool(configured_remote),
    ).with("configChanged", Json::bool(curated_changed || role_changed))
}

/// A manifest never replaces what the marketplace says of a plugin.
pub proof fn a_manifest_only_adds(plugin: JsonV, manifest: JsonV, n: int, key: Seq<char>)
    requires
        plugin.is_object(),
        plugin.has(key),
        0 <= n <= 6,
    ensures
        with_manifest(plugin, manifest, n).is_object(),
        with_manifest(plugin, manifest, n).get(key) == plugin.get(key),
    decreases n,
{
    if n > 0 {
        a_manifest_only_adds(plugin, manifest, n - 1, key);
        let before = with_manifest(plugin, manifest, n - 1);
        let next = manifest_keys()[n - 1];
        if manifest.get(next) is Some && !before.has(next) {
            with_then_get(before, next, manifest.get(next)->0, key);
        }
    }
}

/// Every plugin that a marketplace names is offered, in its order, under its own name; what is no
/// plugin is passed over.
pub proof fn every_plugin_is_offered(first: Seq<JsonV>, item: JsonV, market: Seq<char>)
    ensures
        ({
            let before = entries_in(first, market);
            let after = entries_in(first.push(item), market);
            let named = item is Object && plugin_name(item).len() > 0;
            &&& !named ==> after == before
            &&& named ==> after.len() == before.len() + 1 && after.drop_last() == before
                && after.last().document == item && after.last().name == plugin_name(item)
                && after.last().marketplace_name == market && after.last().id == plugin_name(item)
                + "@"@ + market
        }),
{
    let all = first.push(item);
    assert(all.drop_last() =~= first);
    assert(all.last() == item);
    let before = entries_in(first, market);
    let after = entries_in(all, market);
    if item is Object && plugin_name(item).len() > 0 {
        assert(after.drop_last() =~= before);
    }
}

/// An entry counts unless it is switched off: one that says nothing of it is on.
pub proof fn what_is_not_switched_off_is_on(
    first: Seq<(Seq<char>, Option<bool>)>,
    entry: (Seq<char>, Option<bool>),
    second: Seq<(Seq<char>, Option<bool>)>,
)
    ensures
        switched_on(first.push(entry) + second) == switched_on(first) + (if entry.1 == Some(false) {
            Seq::empty()
        } else {
            seq![entry.0]
        }) + switched_on(second),
    decreases second.len(),
{
    let all = first.push(entry) + second;
    let own = if entry.1 == Some(false) {
        Seq::empty()
    } else {
        seq![entry.0]
    };
    if second.len() == 0 {
        assert(all =~= first.push(entry));
        assert(all.drop_last() =~= first);
        assert(all.last() == entry);
    } else {
        what_is_not_switched_off_is_on(first, entry, second.drop_last());
        assert(all.drop_last() =~= first.push(entry) + second.drop_last());
        assert(all.last() == second.last());
    }
    assert(switched_on(all) =~= switched_on(first) + own + switched_on(second));
}

} // verus!
