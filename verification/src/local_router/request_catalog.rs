//! What the page of request logs knows of the routes.
use crate::json::{Json, JsonV, views};
use crate::plugin_routes::{CodeyConfig, ConfigV, ProfileV, ProviderProfile};
use crate::text::texts;
use crate::textmap::{TextList, TextMap};
use vstd::prelude::*;
use vstd::string::*;

verus! {

/// Texts as a document.
pub open spec fn texts_document(list: Seq<Seq<char>>) -> JsonV {
    JsonV::Array(Seq::new(list.len(), |i: int| JsonV::Str(list[i])))
}

fn texts_json(list: &Vec<String>) -> (r: Json)
    ensures
        r@ == texts_document(texts(list@)),
{
    let mut out: Vec<Json> = Vec::new();
    let mut i: usize = 0;
    while i < list.len()
        invariant
            i <= list.len(),
            out.len() == i,
            forall|j: int| 0 <= j < i ==> (#[trigger] out@[j])@ == JsonV::Str(list@[j]@),
        decreases list.len() - i,
    {
        out.push(Json::str(list[i].as_str()));
        i = i + 1;
    }
    proof {
        assert(views(out@) =~= Seq::new(texts(list@).len(), |i: int| JsonV::Str(texts(list@)[i])));
    }
    Json::array(out)
}

/// A table of models as a document.
pub open spec fn models_document(table: Seq<(Seq<char>, Seq<Seq<char>>)>) -> JsonV
    decreases table.len(),
{
    if table.len() == 0 {
        JsonV::obj()
    } else {
        models_document(table.drop_last()).with(table.last().0, texts_document(table.last().1))
    }
}

fn models_json(table: &TextMap<TextList>) -> (r: Json)
    requires
        table.inv(),
    ensures
        r@ == models_document(table@),
{
    let ghost all = table@;
    let mut out = Json::obj();
    let mut i: usize = 0;
    proof {
        assert(all.subrange(0, 0).len() == 0);
    }
    while i < table.len()
        invariant
            i <= all.len(),
            all == table@,
            out@ == models_document(all.subrange(0, i as int)),
        decreases all.len() - i,
    {
        proof {
            assert(all.subrange(0, i + 1).drop_last() =~= all.subrange(0, i as int));
            assert(all.subrange(0, i + 1).last() == all[i as int]);
        }
        out.insert(table.key_at(i), texts_json(&table.value_at(i).items));
        i = i + 1;
    }
    proof {
        assert(all.subrange(0, i as int) =~= all);
    }
    out
}

/// A route as the page knows it.
pub open spec fn profile_document(p: ProfileV) -> JsonV {
    let plain = JsonV::obj().with("id"@, JsonV::Str(p.id)).with("name"@, JsonV::Str(p.name));
    match p.source_provider_id {
        Some(id) => plain.with("sourceProviderId"@, JsonV::Str(id)),
        None => plain,
    }
}

fn profile_json(p: &ProviderProfile) -> (r: Json)
    ensures
        r@ == profile_document(p@),
{
    let plain = Json::obj().with("id", Json::str(p.id.as_str())).with(
        "name",
        Json::str(p.name.as_str()),
    );
    match &p.source_provider_id {
        Some(id) => plain.with("sourceProviderId", Json::str(id.as_str())),
        None => plain,
    }
}

/// What the page of request logs knows of the routes. It never holds keys or headers.
pub open spec fn catalog_document(config: ConfigV, official_account_available: bool) -> JsonV {
    JsonV::obj().with(
        "officialAccountAvailable"@,
        JsonV::Bool(official_account_available),
    ).with(
        "profiles"@,
        JsonV::Array(
            Seq::new(config.profiles.len(), |i: int| profile_document(config.profiles[i])),
        ),
    ).with("selectedModelsByProvider"@, models_document(config.selected_models)).with(
        "declaredOfficialModelsByProvider"@,
        models_document(config.declared_models),
    ).with("upstreamModelsByProvider"@, models_document(config.upstream_models))
}

/// What the page of request logs knows of the routes.
pub fn request_log_catalog(config: &CodeyConfig, official_account_available: bool) -> (r: Json)
    requires
        config.inv(),
    ensures
        r@ == catalog_document(config@, official_account_available),
{
    let mut profiles: Vec<Json> = Vec::new();
    let mut i: usize = 0;
    while i < config.profiles.len()
        invariant
            i <= config.profiles.len(),
            profiles.len() == i,
            forall|j: int|
                0 <= j < i ==> (#[trigger] profiles@[j])@ == profile_document(
                    config.profiles@[j]@,
                ),
        decreases config.profiles.len() - i,
    {
        profiles.push(profile_json(&config.profiles[i]));
        i = i + 1;
    }
    proof {
        assert(views(profiles@) =~= Seq::new(
            config@.profiles.len(),
            |i: int| profile_document(config@.profiles[i]),
        ));
    }
    Json::obj().with("officialAccountAvailable", Json::bool(official_account_available)).with(
        "profiles",
        Json::array(profiles),
    ).with("selectedModelsByProvider", models_json(&config.selected_models_by_provider)).with(
        "declaredOfficialModelsByProvider",
        models_json(&config.declared_official_models_by_provider),
    ).with("upstreamModelsByProvider", models_json(&config.upstream_models_by_provider))
}

} // verus!
