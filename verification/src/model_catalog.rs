//! The catalog of models that is handed to Codex.
use crate::ids::{form_has_length, fresh_id};
use crate::json::{
    Json, JsonV, json_parsed, json_pretty, opt_view, parse_bytes, plain_within, read_again,
    reserved_key, same_but_floats, unreserved, views, views_push, with_stays_unreserved,
    with_then_get, without_stays_unreserved,
};
use crate::text::{
    cat2, cat3, cat4, copy_texts, ends_with, list_has, listed_is_contained, starts_with, str_eq,
    texts, texts_push, trim, trim_leaves_clean_ends, trimmed,
};
use vstd::prelude::*;
use vstd::string::*;

verus! {

pub const MODEL_CATALOG_RELATIVE_PATH: &'static str = "model-catalogs/codey-official.json";

/// A model of the official catalog.
#[derive(Debug, Clone, PartialEq, Eq)]
pub struct OfficialModel {
    pub slug: String,
    pub display_name: String,
}

impl View for OfficialModel {
    type V = (Seq<char>, Seq<char>);

    open spec fn view(&self) -> (Seq<char>, Seq<char>) {
        (self.slug@, self.display_name@)
    }
}

/// A model of the official catalog, and whether the provider has it.
#[derive(Debug, Clone, PartialEq, Eq)]
pub struct OfficialModelAvailability {
    pub slug: String,
    pub display_name: String,
    pub supported: bool,
}

impl View for OfficialModelAvailability {
    type V = (Seq<char>, Seq<char>, bool);

    open spec fn view(&self) -> (Seq<char>, Seq<char>, bool) {
        (self.slug@, self.display_name@, self.supported)
    }
}

/// What can be selected.
#[derive(Debug, Clone, PartialEq, Eq)]
pub struct ModelSelectionState {
    pub official_models: Vec<OfficialModelAvailability>,
    pub official_model_ids: Vec<String>,
    pub third_party_models: Vec<String>,
    pub upstream_models: Vec<String>,
}

#[verifier::ext_equal]
pub struct SelectionV {
    pub official_models: Seq<(Seq<char>, Seq<char>, bool)>,
    pub official_model_ids: Seq<Seq<char>>,
    pub third_party_models: Seq<Seq<char>>,
    pub upstream_models: Seq<Seq<char>>,
}

impl View for ModelSelectionState {
    type V = SelectionV;

    open spec fn view(&self) -> SelectionV {
        SelectionV {
            official_models: Seq::new(
                self.official_models@.len(),
                |i: int| self.official_models@[i]@,
            ),
            official_model_ids: texts(self.official_model_ids@),
            third_party_models: texts(self.third_party_models@),
            upstream_models: texts(self.upstream_models@),
        }
    }
}

pub open spec fn model_list(v: Seq<OfficialModel>) -> Seq<(Seq<char>, Seq<char>)> {
    Seq::new(v.len(), |i: int| v[i]@)
}

/// Where the catalog stands below the home directory.
pub fn relative_path() -> (r: &'static str)
    ensures
        r@ == "model-catalogs/codey-official.json"@,
{
    MODEL_CATALOG_RELATIVE_PATH
}

/// A model of the list has this slug.
pub open spec fn has_slug(models: Seq<JsonV>, slug: Seq<char>) -> bool {
    exists|i: int| 0 <= i < models.len() && (#[trigger] models[i]).get_str("slug"@) == Some(slug)
}

/// The entries of a catalog: those with a slug, each slug once, with the slug trimmed.
pub open spec fn entries(models: Seq<JsonV>) -> Seq<JsonV>
    decreases models.len(),
{
    if models.len() == 0 {
        Seq::empty()
    } else {
        let rest = entries(models.drop_last());
        match models.last().get_str("slug"@) {
            None => rest,
            Some(s) => {
                let slug = trim(s);
                if slug.len() == 0 || has_slug(rest, slug) {
                    rest
                } else {
                    rest.push(models.last().with("slug"@, JsonV::Str(slug)))
                }
            },
        }
    }
}

pub open spec fn catalog_models(value: JsonV) -> Seq<JsonV> {
    match value.get_array("models"@) {
        Some(models) => entries(models),
        None => Seq::empty(),
    }
}

/// The entries that were not added for a third party.
pub open spec fn not_third_party(models: Seq<JsonV>) -> Seq<JsonV>
    decreases models.len(),
{
    if models.len() == 0 {
        Seq::empty()
    } else {
        let rest = not_third_party(models.drop_last());
        if models.last().get_str("codey_source"@) == Some("third_party"@) {
            rest
        } else {
            rest.push(models.last())
        }
    }
}

pub open spec fn official_models(value: JsonV) -> Seq<JsonV> {
    not_third_party(catalog_models(value))
}

pub open spec fn is_listed(model: JsonV) -> bool {
    model.get_str("visibility"@) == Some("list"@)
}

/// How an entry is shown: by its name, or by its slug where it has none.
pub open spec fn shown(model: JsonV) -> Option<(Seq<char>, Seq<char>)> {
    match model.get_str("slug"@) {
        None => None,
        Some(s) => {
            let slug = trim(s);
            let name = trim(model.str_or_empty("display_name"@));
            if !is_listed(model) || slug.len() == 0 {
                None
            } else {
                Some(
                    (
                        slug,
                        if name.len() > 0 {
                            name
                        } else {
                            slug
                        },
                    ),
                )
            }
        },
    }
}

pub open spec fn shown_models(models: Seq<JsonV>) -> Seq<(Seq<char>, Seq<char>)>
    decreases models.len(),
{
    if models.len() == 0 {
        Seq::empty()
    } else {
        let rest = shown_models(models.drop_last());
        match shown(models.last()) {
            Some(m) => rest.push(m),
            None => rest,
        }
    }
}

fn list_has_slug(models: &Vec<Json>, slug: &str) -> (r: bool)
    ensures
        r == has_slug(views(models@), slug@),
{
    let mut i: usize = 0;
    while i < models.len()
        invariant
            i <= models.len(),
            forall|j: int|
                0 <= j < i ==> (#[trigger] views(models@)[j]).get_str("slug"@) != Some(slug@),
        decreases models.len() - i,
    {
        let found = match models[i].get_str("slug") {
            Some(s) => str_eq(s, slug),
            None => false,
        };
        if found {
            proof {
                assert(views(models@)[i as int].get_str("slug"@) == Some(slug@));
            }
            return true;
        }
        i = i + 1;
    }
    false
}

/// The entries of a catalog.
pub fn catalog_models_from_value(value: &Json) -> (r: Vec<Json>)
    ensures
        views(r@) == catalog_models(value@),
{
    let mut out: Vec<Json> = Vec::new();
    let models = match value.get_array("models") {
        None => {
            proof {
                assert(views(out@) =~= Seq::empty());
            }
            return out;
        },
        Some(m) => m,
    };
    let ghost all = views(models@);
    let mut i: usize = 0;
    proof {
        assert(views(out@) =~= entries(all.subrange(0, 0)));
    }
    while i < models.len()
        invariant
            i <= models.len(),
            all == views(models@),
            views(out@) == entries(all.subrange(0, i as int)),
        decreases models.len() - i,
    {
        proof {
            assert(all.subrange(0, i + 1).drop_last() =~= all.subrange(0, i as int));
            assert(all.subrange(0, i + 1).last() == models@[i as int]@);
        }
        if let Some(s) = models[i].get_str("slug") {
            let slug = trimmed(s);
            if !slug.as_str().is_empty() && !list_has_slug(&out, slug.as_str()) {
                let model = models[i].clone_json().with("slug", Json::string(slug));
                proof {
                    views_push(out@, model);
                }
                out.push(model);
            }
        }
        i = i + 1;
    }
    proof {
        assert(all.subrange(0, i as int) =~= all);
    }
    out
}

/// The entries that were not added for a third party.
pub fn official_models_from_value(value: &Json) -> (r: Vec<Json>)
    ensures
        views(r@) == official_models(value@),
{
    let models = catalog_models_from_value(value);
    let ghost all = views(models@);
    let mut out: Vec<Json> = Vec::new();
    let mut i: usize = 0;
    proof {
        assert(views(out@) =~= not_third_party(all.subrange(0, 0)));
    }
    while i < models.len()
        invariant
            i <= models.len(),
            all == views(models@),
            views(out@) == not_third_party(all.subrange(0, i as int)),
        decreases models.len() - i,
    {
        proof {
            assert(all.subrange(0, i + 1).drop_last() =~= all.subrange(0, i as int));
            assert(all.subrange(0, i + 1).last() == models@[i as int]@);
        }
        let other = match models[i].get_str("codey_source") {
            Some(s) => str_eq(s, "third_party"),
            None => false,
        };
        if !other {
            let model = models[i].clone_json();
            proof {
                views_push(out@, model);
            }
            out.push(model);
        }
        i = i + 1;
    }
    proof {
        assert(all.subrange(0, i as int) =~= all);
    }
    out
}

fn is_listed_model(model: &Json) -> (r: bool)
    ensures
        r == is_listed(model@),
{
    match model.get_str("visibility") {
        Some(s) => str_eq(s, "list"),
        None => false,
    }
}

fn shown_model(model: &Json) -> (r: Option<OfficialModel>)
    ensures
        match r {
            Some(m) => shown(model@) == Some(m@),
            None => shown(model@) is None,
        },
{
    if !is_listed_model(model) {
        return None;
    }
    let slug = match model.get_str("slug") {
        None => {
            return None;
        },
        Some(s) => trimmed(s),
    };
    if slug.as_str().is_empty() {
        return None;
    }
    let name = trimmed(model.str_or_empty("display_name").as_str());
    let display_name = if name.as_str().is_empty() {
        slug.clone()
    } else {
        name
    };
    Some(OfficialModel { slug, display_name })
}

/// The official models of a catalog that are shown.
pub fn visible_models_from_value(value: &Json) -> (r: Vec<OfficialModel>)
    ensures
        model_list(r@) == shown_models(official_models(value@)),
{
    let models = official_models_from_value(value);
    let ghost all = views(models@);
    let mut out: Vec<OfficialModel> = Vec::new();
    let mut i: usize = 0;
    proof {
        assert(model_list(out@) =~= shown_models(all.subrange(0, 0)));
    }
    while i < models.len()
        invariant
            i <= models.len(),
            all == views(models@),
            model_list(out@) == shown_models(all.subrange(0, i as int)),
        decreases models.len() - i,
    {
        proof {
            assert(all.subrange(0, i + 1).drop_last() =~= all.subrange(0, i as int));
            assert(all.subrange(0, i + 1).last() == models@[i as int]@);
        }
        if let Some(m) = shown_model(&models[i]) {
            let ghost before = out@;
            out.push(m);
            proof {
                assert(model_list(out@) =~= model_list(before).push(m@));
            }
        }
        i = i + 1;
    }
    proof {
        assert(all.subrange(0, i as int) =~= all);
    }
    out
}

/// A file that may hold a catalog, as it was read.
#[derive(Debug)]
pub enum CatalogFile {
    Missing,
    /// It could not be read; the words say why.
    Unreadable(String, String),
    /// Its path and bytes.
    Contents(String, Vec<u8>),
}

/// A file that may hold a catalog, as it was parsed.
#[derive(Debug)]
pub enum CatalogSource {
    Missing,
    Unreadable(String, String),
    Unparsable(String, String),
    Document(Json),
}

#[verifier::ext_equal]
pub enum SourceV {
    Missing,
    Unreadable(Seq<char>, Seq<char>),
    Unparsable(Seq<char>, Seq<char>),
    Document(JsonV),
}

impl View for CatalogSource {
    type V = SourceV;

    open spec fn view(&self) -> SourceV {
        match self {
            CatalogSource::Missing => SourceV::Missing,
            CatalogSource::Unreadable(p, e) => SourceV::Unreadable(p@, e@),
            CatalogSource::Unparsable(p, e) => SourceV::Unparsable(p@, e@),
            CatalogSource::Document(v) => SourceV::Document(v@),
        }
    }
}

pub open spec fn source_list(v: Seq<CatalogSource>) -> Seq<SourceV> {
    Seq::new(v.len(), |i: int| v[i]@)
}

/// What a file parses to.
pub open spec fn source_of(file: CatalogFile) -> SourceV {
    match file {
        CatalogFile::Missing => SourceV::Missing,
        CatalogFile::Unreadable(p, e) => SourceV::Unreadable(p@, e@),
        CatalogFile::Contents(p, b) => match json_parsed(b@) {
            Ok(v) => SourceV::Document(v),
            Err(e) => SourceV::Unparsable(p@, e),
        },
    }
}

pub open spec fn sources_of(files: Seq<CatalogFile>) -> Seq<SourceV> {
    Seq::new(files.len(), |i: int| source_of(files[i]))
}

/// The documents among the sources are such as are read from a file: no object in them has the
/// reserved key alone.
pub open spec fn were_read(sources: Seq<SourceV>) -> bool {
    forall|i: int|
        0 <= i < sources.len() ==> ((#[trigger] sources[i]) matches SourceV::Document(v)
            ==> unreserved(v))
}

/// Parses the files that may hold a catalog.
pub fn parse_catalog_files(files: &Vec<CatalogFile>) -> (r: Vec<CatalogSource>)
    ensures
        source_list(r@) == sources_of(files@),
        were_read(source_list(r@)),
{
    let mut out: Vec<CatalogSource> = Vec::new();
    let mut i: usize = 0;
    while i < files.len()
        invariant
            i <= files.len(),
            out.len() == i,
            forall|j: int| 0 <= j < i ==> (#[trigger] out@[j])@ == source_of(files@[j]),
            forall|j: int|
                0 <= j < i ==> ((#[trigger] out@[j])@ matches SourceV::Document(v)
                    ==> unreserved(v)),
        decreases files.len() - i,
    {
        let source = match &files[i] {
            CatalogFile::Missing => CatalogSource::Missing,
            CatalogFile::Unreadable(p, e) => CatalogSource::Unreadable(p.clone(), e.clone()),
            CatalogFile::Contents(p, b) => match parse_bytes(b.as_slice()) {
                Ok(v) => CatalogSource::Document(v),
                Err(e) => CatalogSource::Unparsable(p.clone(), e),
            },
        };
        out.push(source);
        i = i + 1;
    }
    proof {
        assert(source_list(out@) =~= sources_of(files@));
    }
    out
}

/// The position of the first source with an official model; with `only_shown`, one that is shown.
pub open spec fn first_source(sources: Seq<SourceV>, only_shown: bool, n: int) -> Option<int>
    decreases n,
{
    if n <= 0 {
        None
    } else {
        match first_source(sources, only_shown, n - 1) {
            Some(i) => Some(i),
            None => match sources[n - 1] {
                SourceV::Document(v) => if (if only_shown {
                    shown_models(official_models(v)).len() > 0
                } else {
                    official_models(v).len() > 0
                }) {
                    Some(n - 1)
                } else {
                    None
                },
                _ => None,
            },
        }
    }
}

/// What is said of the last source that failed, or of there being none.
pub open spec fn source_failure(sources: Seq<SourceV>, only_shown: bool, n: int) -> Seq<char>
    decreases n,
{
    if n <= 0 {
        if only_shown {
            "官方账号模型目录中没有可见模型"@
        } else {
            "找不到官方账号模型缓存，请先使用官方账号启动一次 Codex"@
        }
    } else {
        match sources[n - 1] {
            SourceV::Unreadable(p, e) => if only_shown {
                "读取 "@ + p + " 失败："@ + e
            } else {
                e
            },
            SourceV::Unparsable(p, e) => if only_shown {
                "解析 "@ + p + " 失败："@ + e
            } else {
                e
            },
            _ => source_failure(sources, only_shown, n - 1),
        }
    }
}

/// The official models that are shown, from the first source that has any.
pub open spec fn visible_of(sources: Seq<SourceV>) -> Result<
    Seq<(Seq<char>, Seq<char>)>,
    Seq<char>,
> {
    match first_source(sources, true, sources.len() as int) {
        Some(i) => Ok(shown_models(official_models(sources[i]->Document_0))),
        None => Err(source_failure(sources, true, sources.len() as int)),
    }
}

/// The official entries, from the first source that has any.
pub open spec fn official_of(sources: Seq<SourceV>) -> Result<Seq<JsonV>, Seq<char>> {
    match first_source(sources, false, sources.len() as int) {
        Some(i) => Ok(official_models(sources[i]->Document_0)),
        None => Err(source_failure(sources, false, sources.len() as int)),
    }
}

proof fn lemma_first_stays(sources: Seq<SourceV>, only_shown: bool, n: int, m: int)
    requires
        0 <= n <= m,
        first_source(sources, only_shown, n) is Some,
    ensures
        first_source(sources, only_shown, m) == first_source(sources, only_shown, n),
    decreases m - n,
{
    if n < m {
        lemma_first_stays(sources, only_shown, n, m - 1);
    }
}

/// The official models that are shown, from the first source that has any.
pub fn visible_models(sources: &Vec<CatalogSource>) -> (r: Result<Vec<OfficialModel>, String>)
    ensures
        match r {
            Ok(models) => visible_of(source_list(sources@)) == Ok::<
                Seq<(Seq<char>, Seq<char>)>,
                Seq<char>,
            >(model_list(models@)),
            Err(e) => visible_of(source_list(sources@)) == Err::<
                Seq<(Seq<char>, Seq<char>)>,
                Seq<char>,
            >(e@),
        },
{
    let ghost all = source_list(sources@);
    let mut failure = "官方账号模型目录中没有可见模型".to_owned();
    let mut i: usize = 0;
    while i < sources.len()
        invariant
            i <= sources.len(),
            all == source_list(sources@),
            first_source(all, true, i as int) is None,
            failure@ == source_failure(all, true, i as int),
        decreases sources.len() - i,
    {
        proof {
            assert(all[i as int] == sources@[i as int]@);
        }
        match &sources[i] {
            CatalogSource::Missing => {},
            CatalogSource::Unreadable(p, e) => {
                failure = cat4("读取 ", p.as_str(), " 失败：", e.as_str());
            },
            CatalogSource::Unparsable(p, e) => {
                failure = cat4("解析 ", p.as_str(), " 失败：", e.as_str());
            },
            CatalogSource::Document(v) => {
                let models = visible_models_from_value(v);
                proof {
                    assert(model_list(models@).len() == models.len());
                }
                if models.len() > 0 {
                    proof {
                        lemma_first_stays(all, true, i + 1, sources.len() as int);
                    }
                    return Ok(models);
                }
            },
        }
        i = i + 1;
    }
    Err(failure)
}

/// The official entries, from the first source that has any.
pub fn read_official_entries(sources: &Vec<CatalogSource>) -> (r: Result<Vec<Json>, String>)
    ensures
        match r {
            Ok(models) => official_of(source_list(sources@)) == Ok::<Seq<JsonV>, Seq<char>>(
                views(models@),
            ),
            Err(e) => official_of(source_list(sources@)) == Err::<Seq<JsonV>, Seq<char>>(e@),
        },
{
    let ghost all = source_list(sources@);
    let mut failure = "找不到官方账号模型缓存，请先使用官方账号启动一次 Codex".to_owned();
    let mut i: usize = 0;
    while i < sources.len()
        invariant
            i <= sources.len(),
            all == source_list(sources@),
            first_source(all, false, i as int) is None,
            failure@ == source_failure(all, false, i as int),
        decreases sources.len() - i,
    {
        proof {
            assert(all[i as int] == sources@[i as int]@);
        }
        match &sources[i] {
            CatalogSource::Missing => {},
            CatalogSource::Unreadable(p, e) => {
                failure = e.clone();
            },
            CatalogSource::Unparsable(p, e) => {
                failure = e.clone();
            },
            CatalogSource::Document(v) => {
                let models = official_models_from_value(v);
                proof {
                    assert(views(models@).len() == models.len());
                }
                if models.len() > 0 {
                    proof {
                        lemma_first_stays(all, false, i + 1, sources.len() as int);
                    }
                    return Ok(models);
                }
            },
        }
        i = i + 1;
    }
    Err(failure)
}

/// The slugs of entries.
pub open spec fn slugs(models: Seq<JsonV>) -> Seq<Seq<char>>
    decreases models.len(),
{
    if models.len() == 0 {
        Seq::empty()
    } else {
        let rest = slugs(models.drop_last());
        match models.last().get_str("slug"@) {
            Some(s) => rest.push(s),
            None => rest,
        }
    }
}

/// The slugs of entries.
pub fn official_model_slugs(models: &Vec<Json>) -> (r: Vec<String>)
    ensures
        texts(r@) == slugs(views(models@)),
{
    let ghost all = views(models@);
    let mut out: Vec<String> = Vec::new();
    let mut i: usize = 0;
    proof {
        assert(texts(out@) =~= slugs(all.subrange(0, 0)));
    }
    while i < models.len()
        invariant
            i <= models.len(),
            all == views(models@),
            texts(out@) == slugs(all.subrange(0, i as int)),
        decreases models.len() - i,
    {
        proof {
            assert(all.subrange(0, i + 1).drop_last() =~= all.subrange(0, i as int));
            assert(all.subrange(0, i + 1).last() == models@[i as int]@);
        }
        if let Some(s) = models[i].get_str("slug") {
            let slug = s.to_owned();
            proof {
                texts_push(out@, slug);
            }
            out.push(slug);
        }
        i = i + 1;
    }
    proof {
        assert(all.subrange(0, i as int) =~= all);
    }
    out
}

/// A catalog with a model is there.
pub fn is_available(catalog: &CatalogSource) -> (r: bool)
    ensures
        r == match catalog@ {
            SourceV::Document(v) => catalog_models(v).len() > 0,
            _ => false,
        },
{
    match catalog {
        CatalogSource::Document(v) => {
            let models = catalog_models_from_value(v);
            proof {
                assert(views(models@).len() == models.len());
            }
            models.len() > 0
        },
        _ => false,
    }
}

/// Efforts that Codex takes.
pub open spec fn allowed_effort(effort: Seq<char>) -> bool {
    effort == "low"@ || effort == "medium"@ || effort == "high"@ || effort == "xhigh"@
}

fn is_allowed_effort(effort: &str) -> (r: bool)
    ensures
        r == allowed_effort(effort@),
{
    str_eq(effort, "low") || str_eq(effort, "medium") || str_eq(effort, "high") || str_eq(
        effort,
        "xhigh",
    )
}

pub open spec fn level_is_allowed(level: JsonV) -> bool {
    level.get_str("effort"@) matches Some(effort) && allowed_effort(effort)
}

pub open spec fn allowed_levels(levels: Seq<JsonV>) -> Seq<JsonV>
    decreases levels.len(),
{
    if levels.len() == 0 {
        Seq::empty()
    } else {
        let rest = allowed_levels(levels.drop_last());
        if level_is_allowed(levels.last()) {
            rest.push(levels.last())
        } else {
            rest
        }
    }
}

/// A model with the efforts that Codex takes.
pub open spec fn clamped(model: JsonV) -> JsonV {
    let levelled = match model.get_array("supported_reasoning_levels"@) {
        Some(levels) => model.with(
            "supported_reasoning_levels"@,
            JsonV::Array(allowed_levels(levels)),
        ),
        None => model,
    };
    if allowed_effort(levelled.str_or_empty("default_reasoning_level"@)) {
        levelled
    } else {
        levelled.with("default_reasoning_level"@, JsonV::Str("xhigh"@))
    }
}

fn keep_allowed_levels(levels: &Vec<Json>) -> (r: Vec<Json>)
    ensures
        views(r@) == allowed_levels(views(levels@)),
{
    let ghost all = views(levels@);
    let mut out: Vec<Json> = Vec::new();
    let mut i: usize = 0;
    proof {
        assert(views(out@) =~= allowed_levels(all.subrange(0, 0)));
    }
    while i < levels.len()
        invariant
            i <= levels.len(),
            all == views(levels@),
            views(out@) == allowed_levels(all.subrange(0, i as int)),
        decreases levels.len() - i,
    {
        proof {
            assert(all.subrange(0, i + 1).drop_last() =~= all.subrange(0, i as int));
            assert(all.subrange(0, i + 1).last() == levels@[i as int]@);
        }
        let allowed = match levels[i].get_str("effort") {
            Some(effort) => is_allowed_effort(effort),
            None => false,
        };
        if allowed {
            let level = levels[i].clone_json();
            proof {
                views_push(out@, level);
            }
            out.push(level);
        }
        i = i + 1;
    }
    proof {
        assert(all.subrange(0, i as int) =~= all);
    }
    out
}

/// Leaves a model only the efforts that Codex takes.
pub fn clamp_reasoning_efforts(model: &mut Json)
    ensures
        final(model)@ == clamped(old(model)@),
{
    let levels = match model.get_array("supported_reasoning_levels") {
        Some(levels) => Some(keep_allowed_levels(levels)),
        None => None,
    };
    if let Some(levels) = levels {
        model.insert("supported_reasoning_levels", Json::array(levels));
    }
    let default = model.str_or_empty("default_reasoning_level");
    if !is_allowed_effort(default.as_str()) {
        model.insert("default_reasoning_level", Json::str("xhigh"));
    }
}

/// A model that says whether it gives summaries of its reasoning.
pub open spec fn compatible(model: JsonV) -> JsonV {
    match model.get("supports_reasoning_summaries"@) {
        Some(JsonV::Bool(_)) => model,
        _ => model.with(
            "supports_reasoning_summaries"@,
            JsonV::Bool(
                model.get_array("supported_reasoning_levels"@) matches Some(levels)
                    && levels.len() > 0,
            ),
        ),
    }
}

/// Lets a model say whether it gives summaries of its reasoning.
pub fn ensure_catalog_compatibility(model: &mut Json)
    ensures
        final(model)@ == compatible(old(model)@),
{
    let said = match model.get("supports_reasoning_summaries") {
        Some(v) => v.as_bool().is_some(),
        None => false,
    };
    if !said {
        let reasons = match model.get_array("supported_reasoning_levels") {
            Some(levels) => {
                proof {
                    assert(views(levels@).len() == levels.len());
                }
                levels.len() > 0
            },
            None => false,
        };
        model.insert("supports_reasoning_summaries", Json::bool(reasons));
    }
}

/// An entry for a model of a third party, made after an official one.
pub open spec fn synthetic(template: JsonV, model_id: Seq<char>, index: int) -> JsonV {
    clamped(
        compatible(
            template.with("slug"@, JsonV::Str(model_id)).with(
                "display_name"@,
                JsonV::Str(model_id),
            ).with("description"@, JsonV::Str("Third-party API model"@)).with(
                "visibility"@,
                JsonV::Str("list"@),
            ).with("priority"@, JsonV::Unsigned((1000 + index) as u64)).with(
                "supported_in_api"@,
                JsonV::Bool(true),
            ).with("service_tiers"@, JsonV::Array(Seq::empty())).with(
                "additional_speed_tiers"@,
                JsonV::Array(Seq::empty()),
            ).with("codey_source"@, JsonV::Str("third_party"@)).without(
                "availability_nux"@,
            ).without("upgrade"@),
        ),
    )
}

/// An entry for a model of a third party, made after an official one.
pub fn synthetic_model(template: &Json, model_id: &str, index: usize) -> (r: Json)
    requires
        1000 + index <= u64::MAX,
    ensures
        r@ == synthetic(template@, model_id@, index as int),
{
    let tiers: Vec<Json> = Vec::new();
    let speeds: Vec<Json> = Vec::new();
    proof {
        assert(views(tiers@) =~= Seq::empty());
        assert(views(speeds@) =~= Seq::empty());
    }
    let mut model = template.clone_json().with("slug", Json::str(model_id)).with(
        "display_name",
        Json::str(model_id),
    ).with("description", Json::str("Third-party API model")).with(
        "visibility",
        Json::str("list"),
    ).with("priority", Json::unsigned(1000 + index as u64)).with(
        "supported_in_api",
        Json::bool(true),
    ).with("service_tiers", Json::array(tiers)).with(
        "additional_speed_tiers",
        Json::array(speeds),
    ).with("codey_source", Json::str("third_party"));
    let _ = model.remove("availability_nux");
    let _ = model.remove("upgrade");
    ensure_catalog_compatibility(&mut model);
    clamp_reasoning_efforts(&mut model);
    model
}

/// Official entries that the provider has, as they stand in the catalog. The official provider has
/// all of them.
pub open spec fn kept_official(
    official: Seq<JsonV>,
    official_provider: bool,
    upstream: Seq<Seq<char>>,
) -> Seq<JsonV>
    decreases official.len(),
{
    if official.len() == 0 {
        Seq::empty()
    } else {
        let rest = kept_official(official.drop_last(), official_provider, upstream);
        let model = official.last();
        if official_provider || (is_listed(model) && (model.get_str("slug"@) matches Some(s)
            && upstream.contains(s))) {
            rest.push(clamped(compatible(model)))
        } else {
            rest
        }
    }
}

/// The model that entries for third parties are made after.
pub open spec fn template_at(official: Seq<JsonV>, n: int) -> Option<JsonV>
    decreases n,
{
    if n <= 0 {
        None
    } else {
        match template_at(official, n - 1) {
            Some(m) => Some(m),
            None => if is_listed(official[n - 1]) {
                Some(official[n - 1])
            } else {
                None
            },
        }
    }
}

pub open spec fn template_of(official: Seq<JsonV>) -> Option<JsonV> {
    match template_at(official, official.len() as int) {
        Some(m) => Some(m),
        None => if official.len() > 0 {
            Some(official[0])
        } else {
            None
        },
    }
}

/// The selected model can be added: the provider has it and no official entry stands for it.
pub open spec fn addable(model: Seq<char>, official: Seq<JsonV>, upstream: Seq<Seq<char>>) -> bool {
    model.len() > 0 && !slugs(official).contains(model) && upstream.contains(model)
}

/// The models of third parties among the first selected ones, each once, with their places.
pub open spec fn added(
    official: Seq<JsonV>,
    upstream: Seq<Seq<char>>,
    selected: Seq<Seq<char>>,
) -> Seq<(Seq<char>, int)>
    decreases selected.len(),
{
    if selected.len() == 0 {
        Seq::empty()
    } else {
        let rest = added(official, upstream, selected.drop_last());
        let model = trim(selected.last());
        if addable(model, official, upstream) && !exists|i: int|
            0 <= i < rest.len() && (#[trigger] rest[i]).0 == model {
            rest.push((model, selected.len() - 1))
        } else {
            rest
        }
    }
}

/// The catalog for a provider.
pub open spec fn catalog_for(
    official: Seq<JsonV>,
    official_provider: bool,
    upstream: Seq<Seq<char>>,
    selected: Seq<Seq<char>>,
) -> Result<Seq<JsonV>, Seq<char>> {
    let kept = kept_official(official, official_provider, upstream);
    if official_provider {
        Ok(kept)
    } else {
        match template_of(official) {
            None => Err("官方账号模型缓存为空，请先使用官方账号启动一次 Codex"@),
            Some(template) => {
                let more = added(official, upstream, selected);
                Ok(
                    kept + Seq::new(
                        more.len(),
                        |i: int| synthetic(template, more[i].0, more[i].1),
                    ),
                )
            },
        }
    }
}

fn keep_official(official: &Vec<Json>, official_provider: bool, upstream: &Vec<String>) -> (r: Vec<
    Json,
>)
    ensures
        views(r@) == kept_official(views(official@), official_provider, texts(upstream@)),
{
    let ghost all = views(official@);
    let mut out: Vec<Json> = Vec::new();
    let mut i: usize = 0;
    proof {
        assert(views(out@) =~= kept_official(
            all.subrange(0, 0),
            official_provider,
            texts(upstream@),
        ));
    }
    while i < official.len()
        invariant
            i <= official.len(),
            all == views(official@),
            views(out@) == kept_official(
                all.subrange(0, i as int),
                official_provider,
                texts(upstream@),
            ),
        decreases official.len() - i,
    {
        proof {
            assert(all.subrange(0, i + 1).drop_last() =~= all.subrange(0, i as int));
            assert(all.subrange(0, i + 1).last() == official@[i as int]@);
        }
        let model = &official[i];
        let wanted = if official_provider {
            true
        } else if is_listed_model(model) {
            match model.get_str("slug") {
                Some(s) => {
                    proof {
                        listed_is_contained(upstream@, s@);
                    }
                    list_has(upstream, s)
                },
                None => false,
            }
        } else {
            false
        };
        if wanted {
            let mut copy = model.clone_json();
            ensure_catalog_compatibility(&mut copy);
            clamp_reasoning_efforts(&mut copy);
            proof {
                views_push(out@, copy);
            }
            out.push(copy);
        }
        i = i + 1;
    }
    proof {
        assert(all.subrange(0, i as int) =~= all);
    }
    out
}

fn find_template(official: &Vec<Json>) -> (r: Option<&Json>)
    ensures
        opt_view(r) == template_of(views(official@)),
{
    let ghost all = views(official@);
    let mut i: usize = 0;
    while i < official.len()
        invariant
            i <= official.len(),
            all == views(official@),
            template_at(all, i as int) is None,
        decreases official.len() - i,
    {
        proof {
            assert(all[i as int] == official@[i as int]@);
        }
        if is_listed_model(&official[i]) {
            proof {
                lemma_template_stays(all, i + 1, official.len() as int);
            }
            return Some(&official[i]);
        }
        i = i + 1;
    }
    proof {
        assert(all.len() == official.len());
    }
    if official.len() > 0 {
        Some(&official[0])
    } else {
        None
    }
}

proof fn lemma_template_stays(official: Seq<JsonV>, n: int, m: int)
    requires
        0 <= n <= m,
        template_at(official, n) is Some,
    ensures
        template_at(official, m) == template_at(official, n),
    decreases m - n,
{
    if n < m {
        lemma_template_stays(official, n, m - 1);
    }
}

pub open spec fn added_list(v: Seq<(String, usize)>) -> Seq<(Seq<char>, int)> {
    Seq::new(v.len(), |i: int| (v[i].0@, v[i].1 as int))
}

fn find_added(official: &Vec<Json>, upstream: &Vec<String>, selected: &Vec<String>) -> (r: Vec<
    (String, usize),
>)
    ensures
        added_list(r@) == added(views(official@), texts(upstream@), texts(selected@)),
        forall|i: int| 0 <= i < r.len() ==> (#[trigger] r@[i]).1 < selected.len(),
{
    let ghost all = texts(selected@);
    let slug_list = official_model_slugs(official);
    let mut out: Vec<(String, usize)> = Vec::new();
    let mut i: usize = 0;
    proof {
        assert(added_list(out@) =~= added(views(official@), texts(upstream@), all.subrange(0, 0)));
    }
    while i < selected.len()
        invariant
            i <= selected.len(),
            all == texts(selected@),
            texts(slug_list@) == slugs(views(official@)),
            added_list(out@) == added(
                views(official@),
                texts(upstream@),
                all.subrange(0, i as int),
            ),
            forall|j: int| 0 <= j < out.len() ==> (#[trigger] out@[j]).1 < selected.len(),
        decreases selected.len() - i,
    {
        proof {
            assert(all.subrange(0, i + 1).drop_last() =~= all.subrange(0, i as int));
            assert(all.subrange(0, i + 1).last() == selected@[i as int]@);
        }
        let model = trimmed(selected[i].as_str());
        proof {
            listed_is_contained(slug_list@, model@);
            listed_is_contained(upstream@, model@);
        }
        if !model.as_str().is_empty() && !list_has(&slug_list, model.as_str()) && list_has(
            upstream,
            model.as_str(),
        ) && !added_has(&out, model.as_str()) {
            let ghost before = out@;
            out.push((model, i));
            proof {
                assert(added_list(out@) =~= added_list(before).push((model@, i as int)));
            }
        }
        i = i + 1;
    }
    proof {
        assert(all.subrange(0, i as int) =~= all);
    }
    out
}

fn added_has(list: &Vec<(String, usize)>, model: &str) -> (r: bool)
    ensures
        r == exists|i: int|
            0 <= i < added_list(list@).len() && (#[trigger] added_list(list@)[i]).0 == model@,
{
    let mut i: usize = 0;
    while i < list.len()
        invariant
            i <= list.len(),
            forall|j: int| 0 <= j < i ==> (#[trigger] added_list(list@)[j]).0 != model@,
        decreases list.len() - i,
    {
        if str_eq(list[i].0.as_str(), model) {
            proof {
                assert(added_list(list@)[i as int].0 == model@);
            }
            return true;
        }
        i = i + 1;
    }
    false
}

/// The catalog for a provider: the official models that it has, and the selected ones of third
/// parties that it has.
pub fn build_catalog(
    official: &Vec<Json>,
    official_provider: bool,
    upstream_models: &Vec<String>,
    selected_models: &Vec<String>,
) -> (r: Result<Vec<Json>, String>)
    requires
        selected_models.len() + 1000 <= usize::MAX,
    ensures
        match r {
            Ok(models) => catalog_for(
                views(official@),
                official_provider,
                texts(upstream_models@),
                texts(selected_models@),
            ) == Ok::<Seq<JsonV>, Seq<char>>(views(models@)),
            Err(e) => catalog_for(
                views(official@),
                official_provider,
                texts(upstream_models@),
                texts(selected_models@),
            ) == Err::<Seq<JsonV>, Seq<char>>(e@),
        },
{
    let mut models = keep_official(official, official_provider, upstream_models);
    if official_provider {
        return Ok(models);
    }
    let template = match find_template(official) {
        None => {
            return Err("官方账号模型缓存为空，请先使用官方账号启动一次 Codex".to_owned());
        },
        Some(t) => t,
    };
    let more = find_added(official, upstream_models, selected_models);
    let ghost kept = views(models@);
    let ghost made = Seq::new(
        more.len() as nat,
        |i: int| synthetic(template@, more@[i].0@, more@[i].1 as int),
    );
    let mut i: usize = 0;
    proof {
        assert(views(models@) =~= kept + made.subrange(0, 0));
    }
    while i < more.len()
        invariant
            i <= more.len(),
            selected_models.len() + 1000 <= usize::MAX,
            forall|i: int| 0 <= i < more.len() ==> (#[trigger] more@[i]).1 < selected_models.len(),
            made == Seq::new(
                more.len() as nat,
                |i: int| synthetic(template@, more@[i].0@, more@[i].1 as int),
            ),
            views(models@) == kept + made.subrange(0, i as int),
        decreases more.len() - i,
    {
        proof {
            assert(more@[i as int].1 < selected_models.len());
        }
        let model = synthetic_model(template, more[i].0.as_str(), more[i].1);
        proof {
            views_push(models@, model);
            assert(made.subrange(0, i + 1) =~= made.subrange(0, i as int).push(made[i as int]));
            assert(kept + made.subrange(0, i + 1) =~= (kept + made.subrange(0, i as int)).push(
                made[i as int],
            ));
        }
        models.push(model);
        i = i + 1;
    }
    proof {
        assert(made.subrange(0, i as int) =~= made);
        let list = added(views(official@), texts(upstream_models@), texts(selected_models@));
        assert(list =~= added_list(more@));
        assert(made =~= Seq::new(
            list.len(),
            |i: int| synthetic(template@, list[i].0, list[i].1),
        ));
    }
    Ok(models)
}

/// The document of a catalog.
pub open spec fn catalog_document(models: Seq<JsonV>) -> JsonV {
    JsonV::obj().with("models"@, JsonV::Array(models))
}

/// The bytes of a catalog file.
pub open spec fn catalog_file(models: Seq<JsonV>) -> Option<Seq<u8>> {
    match json_pretty(catalog_document(models)) {
        Some(bytes) => Some(bytes.push(10)),
        None => None,
    }
}

/// The bytes of a catalog file.
pub fn catalog_bytes(models: Vec<Json>) -> (r: Result<Vec<u8>, String>)
    ensures
        match r {
            Ok(bytes) => catalog_file(views(models@)) == Some(bytes@) && read_again(
                json_parsed(bytes@),
                catalog_document(views(models@)),
            ),
            Err(e) => catalog_file(views(models@)) is None && e@
                == "序列化 Codey 模型目录失败"@,
        },
{
    match Json::obj().with("models", Json::array(models)).to_pretty() {
        Some(bytes) => {
            let mut bytes = bytes;
            bytes.push(10);
            Ok(bytes)
        },
        None => Err("序列化 Codey 模型目录失败".to_owned()),
    }
}

/// A catalog that is to be written.
#[derive(Debug)]
pub struct RefreshedCatalog {
    pub count: usize,
    pub bytes: Vec<u8>,
}

/// How many models the catalog has, and its bytes.
pub open spec fn refreshed_catalog(
    sources: Seq<SourceV>,
    official_provider: bool,
    upstream: Seq<Seq<char>>,
    selected: Seq<Seq<char>>,
) -> Result<(nat, Seq<u8>), Seq<char>> {
    match official_of(sources) {
        Err(e) => Err(e),
        Ok(official) => match catalog_for(official, official_provider, upstream, selected) {
            Err(e) => Err(e),
            Ok(models) => match catalog_file(models) {
                Some(bytes) => Ok((models.len(), bytes)),
                None => Err("序列化 Codey 模型目录失败"@),
            },
        },
    }
}

/// The models of a catalog that was made anew.
pub open spec fn refreshed_models(
    sources: Seq<SourceV>,
    official_provider: bool,
    upstream: Seq<Seq<char>>,
    selected: Seq<Seq<char>>,
) -> Seq<JsonV> {
    catalog_for(official_of(sources)->Ok_0, official_provider, upstream, selected)->Ok_0
}

/// An entry with a slug.
pub open spec fn has_own_slug(model: JsonV) -> bool {
    model.get_str("slug"@) matches Some(s) && trim(s).len() > 0
}

pub open spec fn all_have_slugs(models: Seq<JsonV>) -> bool {
    forall|i: int| 0 <= i < models.len() ==> has_own_slug(#[trigger] models[i])
}

proof fn lemma_entries_have_slugs(models: Seq<JsonV>)
    ensures
        all_have_slugs(entries(models)),
    decreases models.len(),
{
    if models.len() > 0 {
        lemma_entries_have_slugs(models.drop_last());
        if let Some(s) = models.last().get_str("slug"@) {
            trim_leaves_clean_ends(s);
            if trim(s).len() > 0 {
                assert(has_own_slug(models.last().with("slug"@, JsonV::Str(trim(s)))));
            }
        }
    }
}

proof fn lemma_official_have_slugs(models: Seq<JsonV>)
    requires
        all_have_slugs(models),
    ensures
        all_have_slugs(not_third_party(models)),
    decreases models.len(),
{
    if models.len() > 0 {
        let rest = models.drop_last();
        assert forall|i: int| 0 <= i < rest.len() implies has_own_slug(#[trigger] rest[i]) by {
            assert(has_own_slug(models[i]));
        }
        lemma_official_have_slugs(rest);
        assert(has_own_slug(models[models.len() - 1]));
    }
}

proof fn lemma_slug_stays(model: JsonV)
    requires
        has_own_slug(model),
    ensures
        has_own_slug(clamped(compatible(model))),
{
    reveal_strlit("slug");
    reveal_strlit("supported_reasoning_levels");
    reveal_strlit("default_reasoning_level");
    reveal_strlit("supports_reasoning_summaries");
    assert("slug"@.len() == 4);
    assert("supported_reasoning_levels"@.len() == 26);
    assert("default_reasoning_level"@.len() == 23);
    assert("supports_reasoning_summaries"@.len() == 28);
}

proof fn lemma_kept_have_slugs(
    official: Seq<JsonV>,
    official_provider: bool,
    upstream: Seq<Seq<char>>,
)
    requires
        all_have_slugs(official),
    ensures
        all_have_slugs(kept_official(official, official_provider, upstream)),
    decreases official.len(),
{
    if official.len() > 0 {
        let rest = official.drop_last();
        assert forall|i: int| 0 <= i < rest.len() implies has_own_slug(#[trigger] rest[i]) by {
            assert(has_own_slug(official[i]));
        }
        lemma_kept_have_slugs(rest, official_provider, upstream);
        assert(has_own_slug(official[official.len() - 1]));
        lemma_slug_stays(official.last());
    }
}

proof fn lemma_synthetic_has_slug(template: JsonV, model_id: Seq<char>, index: int)
    requires
        template.is_object(),
        trim(model_id).len() > 0,
    ensures
        has_own_slug(synthetic(template, model_id, index)),
{
    reveal_strlit("slug");
    reveal_strlit("display_name");
    reveal_strlit("description");
    reveal_strlit("visibility");
    reveal_strlit("priority");
    reveal_strlit("supported_in_api");
    reveal_strlit("service_tiers");
    reveal_strlit("additional_speed_tiers");
    reveal_strlit("codey_source");
    reveal_strlit("availability_nux");
    reveal_strlit("upgrade");
    let a = template.with("slug"@, JsonV::Str(model_id));
    assert("slug"@.len() == 4);
    assert("display_name"@.len() == 12);
    assert("description"@.len() == 11);
    assert("visibility"@.len() == 10);
    assert("priority"@.len() == 8);
    assert("supported_in_api"@.len() == 16);
    assert("service_tiers"@.len() == 13);
    assert("additional_speed_tiers"@.len() == 22);
    assert("codey_source"@.len() == 12);
    assert("availability_nux"@.len() == 16);
    assert("upgrade"@.len() == 7);
    let b = a.with("display_name"@, JsonV::Str(model_id)).with(
        "description"@,
        JsonV::Str("Third-party API model"@),
    ).with("visibility"@, JsonV::Str("list"@)).with(
        "priority"@,
        JsonV::Unsigned((1000 + index) as u64),
    ).with("supported_in_api"@, JsonV::Bool(true)).with(
        "service_tiers"@,
        JsonV::Array(Seq::empty()),
    ).with("additional_speed_tiers"@, JsonV::Array(Seq::empty())).with(
        "codey_source"@,
        JsonV::Str("third_party"@),
    ).without("availability_nux"@).without("upgrade"@);
    assert(b.get_str("slug"@) == Some(model_id));
    lemma_slug_stays(b);
}

proof fn lemma_added_are_named(
    official: Seq<JsonV>,
    upstream: Seq<Seq<char>>,
    selected: Seq<Seq<char>>,
)
    ensures
        forall|i: int|
            0 <= i < added(official, upstream, selected).len() ==> trim(
                (#[trigger] added(official, upstream, selected)[i]).0,
            ).len() > 0,
    decreases selected.len(),
{
    if selected.len() > 0 {
        lemma_added_are_named(official, upstream, selected.drop_last());
        trim_leaves_clean_ends(selected.last());
        let rest = added(official, upstream, selected.drop_last());
        let all = added(official, upstream, selected);
        assert forall|i: int| 0 <= i < all.len() implies trim((#[trigger] all[i]).0).len() > 0 by {
            if i < rest.len() {
                assert(all[i] == rest[i]);
            }
        }
    }
}

proof fn lemma_slugs_make_entries(models: Seq<JsonV>)
    requires
        all_have_slugs(models),
    ensures
        entries(models).len() > 0 <==> models.len() > 0,
    decreases models.len(),
{
    if models.len() > 0 {
        let rest = models.drop_last();
        assert forall|i: int| 0 <= i < rest.len() implies has_own_slug(#[trigger] rest[i]) by {
            assert(has_own_slug(models[i]));
        }
        lemma_slugs_make_entries(rest);
        assert(has_own_slug(models[models.len() - 1]));
    }
}

/// A catalog that was made anew, as it is read from its file, has a model to offer exactly where it
/// lists one.
pub proof fn a_refreshed_catalog_is_available(
    sources: Seq<SourceV>,
    official_provider: bool,
    upstream: Seq<Seq<char>>,
    selected: Seq<Seq<char>>,
)
    requires
        refreshed_catalog(sources, official_provider, upstream, selected) is Ok,
    ensures
        ({
            let models = refreshed_models(sources, official_provider, upstream, selected);
            forall|read: JsonV| #[trigger]
                same_but_floats(read, catalog_document(models)) ==> (catalog_models(read).len() > 0
                    <==> models.len() > 0)
        }),
{
    let models = refreshed_models(sources, official_provider, upstream, selected);
    let official = official_of(sources)->Ok_0;
    let i = first_source(sources, false, sources.len() as int)->0;
    if let Some(list) = sources[i]->Document_0.get_array("models"@) {
        lemma_entries_have_slugs(list);
    }
    lemma_official_have_slugs(catalog_models(sources[i]->Document_0));
    lemma_kept_have_slugs(official, official_provider, upstream);
    if !official_provider {
        let kept = kept_official(official, official_provider, upstream);
        let more = added(official, upstream, selected);
        let template = template_of(official)->0;
        lemma_template_is_official(official, official.len() as int);
        assert(has_own_slug(template));
        lemma_added_are_named(official, upstream, selected);
        assert forall|i: int| 0 <= i < models.len() implies has_own_slug(#[trigger] models[i]) by {
            if i >= kept.len() {
                let j = i - kept.len();
                assert(models[i] == synthetic(template, more[j].0, more[j].1));
                lemma_synthetic_has_slug(template, more[j].0, more[j].1);
            } else {
                assert(models[i] == kept[i]);
            }
        }
    }
    assert(all_have_slugs(models));
    let document = catalog_document(models);
    assert(document.get_array("models"@) == Some(models));
    assert forall|read: JsonV| #[trigger] same_but_floats(read, document) implies (catalog_models(
        read,
    ).len() > 0 <==> models.len() > 0) by {
        assert(document->Object_0.dom().contains("models"@));
        assert(read->Object_0.dom().contains("models"@));
        assert(same_but_floats(read->Object_0["models"@], JsonV::Array(models)));
        let list = read->Object_0["models"@]->Array_0;
        assert(read.get_array("models"@) == Some(list));
        assert forall|i: int| 0 <= i < list.len() implies has_own_slug(#[trigger] list[i]) by {
            assert(has_own_slug(models[i]));
            assert(same_but_floats(list[i], models[i]));
            assert(models[i]->Object_0.dom().contains("slug"@));
            assert(same_but_floats(list[i]->Object_0["slug"@], models[i]->Object_0["slug"@]));
        }
        lemma_slugs_make_entries(list);
    }
}

proof fn lemma_template_is_official(official: Seq<JsonV>, n: int)
    requires
        0 <= n <= official.len(),
        all_have_slugs(official),
    ensures
        template_at(official, n) matches Some(m) ==> has_own_slug(m),
    decreases n,
{
    if n > 0 {
        lemma_template_is_official(official, n - 1);
        assert(has_own_slug(official[n - 1]));
    }
}

/// The entries leave no object with the reserved key alone.
pub open spec fn all_unreserved(models: Seq<JsonV>) -> bool {
    forall|i: int| 0 <= i < models.len() ==> unreserved(#[trigger] models[i])
}

proof fn lemma_keys_are_not_reserved()
    ensures
        "slug"@ != reserved_key(),
        "models"@ != reserved_key(),
        "supported_reasoning_levels"@ != reserved_key(),
        "default_reasoning_level"@ != reserved_key(),
        "supports_reasoning_summaries"@ != reserved_key(),
{
    reveal_strlit("$serde_json::private::RawValue");
    reveal_strlit("slug");
    reveal_strlit("models");
    reveal_strlit("supported_reasoning_levels");
    reveal_strlit("default_reasoning_level");
    reveal_strlit("supports_reasoning_summaries");
    assert(reserved_key().len() == 30);
    assert("slug"@.len() == 4);
    assert("models"@.len() == 6);
    assert("supported_reasoning_levels"@.len() == 26);
    assert("default_reasoning_level"@.len() == 23);
    assert("supports_reasoning_summaries"@.len() == 28);
}

proof fn lemma_entries_unreserved(models: Seq<JsonV>)
    requires
        all_unreserved(models),
    ensures
        all_unreserved(entries(models)),
    decreases models.len(),
{
    if models.len() > 0 {
        let rest = models.drop_last();
        assert forall|i: int| 0 <= i < rest.len() implies unreserved(#[trigger] rest[i]) by {
            assert(unreserved(models[i]));
        }
        lemma_entries_unreserved(rest);
        lemma_keys_are_not_reserved();
        assert(unreserved(models[models.len() - 1]));
        if let Some(s) = models.last().get_str("slug"@) {
            with_stays_unreserved(models.last(), "slug"@, JsonV::Str(trim(s)));
        }
    }
}

proof fn lemma_official_unreserved(models: Seq<JsonV>)
    requires
        all_unreserved(models),
    ensures
        all_unreserved(not_third_party(models)),
    decreases models.len(),
{
    if models.len() > 0 {
        let rest = models.drop_last();
        assert forall|i: int| 0 <= i < rest.len() implies unreserved(#[trigger] rest[i]) by {
            assert(unreserved(models[i]));
        }
        lemma_official_unreserved(rest);
        assert(unreserved(models[models.len() - 1]));
    }
}

proof fn lemma_levels_unreserved(levels: Seq<JsonV>)
    requires
        all_unreserved(levels),
    ensures
        all_unreserved(allowed_levels(levels)),
    decreases levels.len(),
{
    if levels.len() > 0 {
        let rest = levels.drop_last();
        assert forall|i: int| 0 <= i < rest.len() implies unreserved(#[trigger] rest[i]) by {
            assert(unreserved(levels[i]));
        }
        lemma_levels_unreserved(rest);
        assert(unreserved(levels[levels.len() - 1]));
    }
}

proof fn lemma_model_stays_unreserved(model: JsonV)
    requires
        unreserved(model),
    ensures
        unreserved(clamped(compatible(model))),
{
    lemma_keys_are_not_reserved();
    with_stays_unreserved(
        model,
        "supports_reasoning_summaries"@,
        JsonV::Bool(
            model.get_array("supported_reasoning_levels"@) matches Some(levels) && levels.len()
                > 0,
        ),
    );
    let taken = compatible(model);
    assert(unreserved(taken));
    let levelled = match taken.get_array("supported_reasoning_levels"@) {
        Some(levels) => taken.with(
            "supported_reasoning_levels"@,
            JsonV::Array(allowed_levels(levels)),
        ),
        None => taken,
    };
    if let Some(levels) = taken.get_array("supported_reasoning_levels"@) {
        assert(unreserved(taken->Object_0["supported_reasoning_levels"@]));
        lemma_levels_unreserved(levels);
        assert(unreserved(JsonV::Array(allowed_levels(levels))));
        with_stays_unreserved(
            taken,
            "supported_reasoning_levels"@,
            JsonV::Array(allowed_levels(levels)),
        );
    }
    with_stays_unreserved(levelled, "default_reasoning_level"@, JsonV::Str("xhigh"@));
}

proof fn lemma_synthetic_unreserved(template: JsonV, model_id: Seq<char>, index: int)
    requires
        unreserved(template),
    ensures
        unreserved(synthetic(template, model_id, index)),
{
    lemma_keys_are_not_reserved();
    reveal_strlit("$serde_json::private::RawValue");
    reveal_strlit("display_name");
    reveal_strlit("description");
    reveal_strlit("visibility");
    reveal_strlit("priority");
    reveal_strlit("supported_in_api");
    reveal_strlit("service_tiers");
    reveal_strlit("additional_speed_tiers");
    reveal_strlit("codey_source");
    reveal_strlit("availability_nux");
    reveal_strlit("upgrade");
    assert(reserved_key().len() == 30);
    assert("display_name"@.len() == 12);
    assert("description"@.len() == 11);
    assert("visibility"@.len() == 10);
    assert("priority"@.len() == 8);
    assert("supported_in_api"@.len() == 16);
    assert("service_tiers"@.len() == 13);
    assert("additional_speed_tiers"@.len() == 22);
    assert("codey_source"@.len() == 12);
    assert("availability_nux"@.len() == 16);
    assert("upgrade"@.len() == 7);
    let empty = JsonV::Array(Seq::empty());
    assert(unreserved(empty));
    let a = template.with("slug"@, JsonV::Str(model_id));
    with_stays_unreserved(template, "slug"@, JsonV::Str(model_id));
    let b = a.with("display_name"@, JsonV::Str(model_id));
    with_stays_unreserved(a, "display_name"@, JsonV::Str(model_id));
    let c = b.with("description"@, JsonV::Str("Third-party API model"@));
    with_stays_unreserved(b, "description"@, JsonV::Str("Third-party API model"@));
    let d = c.with("visibility"@, JsonV::Str("list"@));
    with_stays_unreserved(c, "visibility"@, JsonV::Str("list"@));
    let e = d.with("priority"@, JsonV::Unsigned((1000 + index) as u64));
    with_stays_unreserved(d, "priority"@, JsonV::Unsigned((1000 + index) as u64));
    let f = e.with("supported_in_api"@, JsonV::Bool(true));
    with_stays_unreserved(e, "supported_in_api"@, JsonV::Bool(true));
    let g = f.with("service_tiers"@, empty);
    with_stays_unreserved(f, "service_tiers"@, empty);
    let h = g.with("additional_speed_tiers"@, empty);
    with_stays_unreserved(g, "additional_speed_tiers"@, empty);
    let k = h.with("codey_source"@, JsonV::Str("third_party"@));
    with_stays_unreserved(h, "codey_source"@, JsonV::Str("third_party"@));
    without_stays_unreserved(k, "availability_nux"@, "codey_source"@);
    let l = k.without("availability_nux"@);
    assert(l.get("codey_source"@) is Some);
    without_stays_unreserved(l, "upgrade"@, "codey_source"@);
    lemma_model_stays_unreserved(l.without("upgrade"@));
}

proof fn lemma_kept_unreserved(
    official: Seq<JsonV>,
    official_provider: bool,
    upstream: Seq<Seq<char>>,
)
    requires
        all_unreserved(official),
    ensures
        all_unreserved(kept_official(official, official_provider, upstream)),
    decreases official.len(),
{
    if official.len() > 0 {
        let rest = official.drop_last();
        assert forall|i: int| 0 <= i < rest.len() implies unreserved(#[trigger] rest[i]) by {
            assert(unreserved(official[i]));
        }
        lemma_kept_unreserved(rest, official_provider, upstream);
        assert(unreserved(official[official.len() - 1]));
        lemma_model_stays_unreserved(official.last());
    }
}

proof fn lemma_template_unreserved(official: Seq<JsonV>, n: int)
    requires
        0 <= n <= official.len(),
        all_unreserved(official),
    ensures
        template_at(official, n) matches Some(m) ==> unreserved(m),
    decreases n,
{
    if n > 0 {
        lemma_template_unreserved(official, n - 1);
        assert(unreserved(official[n - 1]));
    }
}

proof fn lemma_refreshed_is_unreserved(
    sources: Seq<SourceV>,
    official_provider: bool,
    upstream: Seq<Seq<char>>,
    selected: Seq<Seq<char>>,
)
    requires
        refreshed_catalog(sources, official_provider, upstream, selected) is Ok,
        were_read(sources),
    ensures
        unreserved(
            catalog_document(refreshed_models(sources, official_provider, upstream, selected)),
        ),
{
    let models = refreshed_models(sources, official_provider, upstream, selected);
    let official = official_of(sources)->Ok_0;
    let i = first_source(sources, false, sources.len() as int)->0;
    lemma_first_is_a_document(sources, false, sources.len() as int);
    let document = sources[i]->Document_0;
    assert(unreserved(document));
    if let Some(list) = document.get_array("models"@) {
        assert(unreserved(document->Object_0["models"@]));
        lemma_entries_unreserved(list);
    }
    lemma_official_unreserved(catalog_models(document));
    lemma_kept_unreserved(official, official_provider, upstream);
    if !official_provider {
        let kept = kept_official(official, official_provider, upstream);
        let more = added(official, upstream, selected);
        let template = template_of(official)->0;
        lemma_template_unreserved(official, official.len() as int);
        assert(unreserved(template));
        assert forall|i: int| 0 <= i < models.len() implies unreserved(#[trigger] models[i]) by {
            if i >= kept.len() {
                let j = i - kept.len();
                assert(models[i] == synthetic(template, more[j].0, more[j].1));
                lemma_synthetic_unreserved(template, more[j].0, more[j].1);
            } else {
                assert(models[i] == kept[i]);
            }
        }
    }
    lemma_keys_are_not_reserved();
    assert(unreserved(JsonV::Array(models)));
    assert(unreserved(JsonV::obj()));
    with_stays_unreserved(JsonV::obj(), "models"@, JsonV::Array(models));
}

proof fn lemma_first_is_a_document(sources: Seq<SourceV>, only_shown: bool, n: int)
    requires
        0 <= n <= sources.len(),
    ensures
        first_source(sources, only_shown, n) matches Some(i) ==> 0 <= i < n
            && sources[i] is Document,
    decreases n,
{
    if n > 0 {
        lemma_first_is_a_document(sources, only_shown, n - 1);
    }
}

/// Makes the catalog for a provider anew from the catalogs that are there. Where those were read
/// from files and the new file is read again, it has a model to offer exactly where the count is not
/// zero; a catalog that holds only whole numbers is read again.
pub fn refresh_for_provider(
    sources: &Vec<CatalogSource>,
    official_provider: bool,
    upstream_models: &Vec<String>,
    selected_models: &Vec<String>,
) -> (r: Result<RefreshedCatalog, String>)
    requires
        selected_models.len() + 1000 <= usize::MAX,
    ensures
        match r {
            Ok(c) => refreshed_catalog(
                source_list(sources@),
                official_provider,
                texts(upstream_models@),
                texts(selected_models@),
            ) == Ok::<(nat, Seq<u8>), Seq<char>>((c.count as nat, c.bytes@)),
            Err(e) => refreshed_catalog(
                source_list(sources@),
                official_provider,
                texts(upstream_models@),
                texts(selected_models@),
            ) == Err::<(nat, Seq<u8>), Seq<char>>(e@),
        },
        r matches Ok(c) ==> ({
            let models = refreshed_models(
                source_list(sources@),
                official_provider,
                texts(upstream_models@),
                texts(selected_models@),
            );
            match json_parsed(c.bytes@) {
                Ok(read) => were_read(source_list(sources@)) ==> (catalog_models(read).len() > 0)
                    == (c.count > 0),
                Err(_) => !plain_within(catalog_document(models), 127),
            }
        }),
{
    let official = match read_official_entries(sources) {
        Ok(v) => v,
        Err(e) => {
            return Err(e);
        },
    };
    let models = match build_catalog(
        &official,
        official_provider,
        upstream_models,
        selected_models,
    ) {
        Ok(v) => v,
        Err(e) => {
            return Err(e);
        },
    };
    let count = models.len();
    proof {
        assert(views(models@).len() == count);
    }
    match catalog_bytes(models) {
        Ok(bytes) => {
            proof {
                a_refreshed_catalog_is_available(
                    source_list(sources@),
                    official_provider,
                    texts(upstream_models@),
                    texts(selected_models@),
                );
                if were_read(source_list(sources@)) {
                    lemma_refreshed_is_unreserved(
                        source_list(sources@),
                        official_provider,
                        texts(upstream_models@),
                        texts(selected_models@),
                    );
                }
            }
            Ok(RefreshedCatalog { count, bytes })
        },
        Err(e) => Err(e),
    }
}

/// What can be selected of official models that are shown.
pub open spec fn selection(
    visible: Seq<(Seq<char>, Seq<char>)>,
    official: Seq<JsonV>,
    official_provider: bool,
    upstream: Seq<Seq<char>>,
    selected: Seq<Seq<char>>,
) -> SelectionV {
    let more = added(official, upstream, selected);
    SelectionV {
        official_models: Seq::new(
            visible.len(),
            |i: int|
                (
                    visible[i].0,
                    visible[i].1,
                    official_provider || upstream.contains(visible[i].0),
                ),
        ),
        official_model_ids: slugs(official),
        third_party_models: if official_provider {
            Seq::empty()
        } else {
            Seq::new(more.len(), |i: int| more[i].0)
        },
        upstream_models: if official_provider {
            Seq::empty()
        } else {
            upstream
        },
    }
}

/// What can be selected, by the official models and what the provider has.
pub fn select_models(
    visible: &Vec<OfficialModel>,
    official: &Vec<Json>,
    official_provider: bool,
    upstream_models: &Vec<String>,
    selected_models: &Vec<String>,
) -> (r: ModelSelectionState)
    ensures
        r@ == selection(
            model_list(visible@),
            views(official@),
            official_provider,
            texts(upstream_models@),
            texts(selected_models@),
        ),
{
    let ghost goal = selection(
        model_list(visible@),
        views(official@),
        official_provider,
        texts(upstream_models@),
        texts(selected_models@),
    );
    let mut official_models: Vec<OfficialModelAvailability> = Vec::new();
    let mut i: usize = 0;
    while i < visible.len()
        invariant
            i <= visible.len(),
            official_models.len() == i,
            goal == selection(
                model_list(visible@),
                views(official@),
                official_provider,
                texts(upstream_models@),
                texts(selected_models@),
            ),
            forall|j: int|
                0 <= j < i ==> (#[trigger] official_models@[j])@ == goal.official_models[j],
        decreases visible.len() - i,
    {
        let m = &visible[i];
        proof {
            listed_is_contained(upstream_models@, m.slug@);
            assert(model_list(visible@)[i as int] == m@);
        }
        let supported = official_provider || list_has(upstream_models, m.slug.as_str());
        official_models.push(
            OfficialModelAvailability {
                slug: m.slug.clone(),
                display_name: m.display_name.clone(),
                supported,
            },
        );
        i = i + 1;
    }
    let official_model_ids = official_model_slugs(official);
    let mut third_party_models: Vec<String> = Vec::new();
    let mut upstream: Vec<String> = Vec::new();
    if !official_provider {
        let more = find_added(official, upstream_models, selected_models);
        let mut k: usize = 0;
        while k < more.len()
            invariant
                k <= more.len(),
                third_party_models.len() == k,
                forall|j: int|
                    0 <= j < k ==> (#[trigger] third_party_models@[j])@ == more@[j].0@,
            decreases more.len() - k,
        {
            third_party_models.push(more[k].0.clone());
            k = k + 1;
        }
        upstream = copy_texts(upstream_models);
        proof {
            let list = added(views(official@), texts(upstream_models@), texts(selected_models@));
            assert(list =~= added_list(more@));
            assert(texts(third_party_models@) =~= goal.third_party_models);
            assert(texts(upstream@) =~= goal.upstream_models);
        }
    } else {
        proof {
            assert(texts(third_party_models@) =~= goal.third_party_models);
            assert(texts(upstream@) =~= goal.upstream_models);
        }
    }
    let r = ModelSelectionState {
        official_models,
        official_model_ids,
        third_party_models,
        upstream_models: upstream,
    };
    proof {
        assert(r@.official_models =~= goal.official_models);
        assert(r@ =~= goal);
    }
    r
}

/// What can be selected, by the catalogs that are there.
pub open spec fn selection_of(
    sources: Seq<SourceV>,
    official_provider: bool,
    upstream: Seq<Seq<char>>,
    selected: Seq<Seq<char>>,
) -> Result<SelectionV, Seq<char>> {
    match visible_of(sources) {
        Err(e) => Err(e),
        Ok(visible) => match official_of(sources) {
            Err(e) => Err(e),
            Ok(official) => Ok(
                selection(visible, official, official_provider, upstream, selected),
            ),
        },
    }
}

/// What can be selected, by the catalogs that are there.
pub fn selection_state(
    sources: &Vec<CatalogSource>,
    official_provider: bool,
    upstream_models: &Vec<String>,
    selected_models: &Vec<String>,
) -> (r: Result<ModelSelectionState, String>)
    ensures
        match r {
            Ok(state) => selection_of(
                source_list(sources@),
                official_provider,
                texts(upstream_models@),
                texts(selected_models@),
            ) == Ok::<SelectionV, Seq<char>>(state@),
            Err(e) => selection_of(
                source_list(sources@),
                official_provider,
                texts(upstream_models@),
                texts(selected_models@),
            ) == Err::<SelectionV, Seq<char>>(e@),
        },
{
    let visible = match visible_models(sources) {
        Ok(v) => v,
        Err(e) => {
            return Err(e);
        },
    };
    match read_official_entries(sources) {
        Ok(official) => Ok(
            select_models(&visible, &official, official_provider, upstream_models, selected_models),
        ),
        Err(e) => Err(e),
    }
}

/// The name of the file that a catalog is first written to, beside the one it then replaces.
pub fn temp_file_name(file_name: Option<&str>) -> (r: String)
    ensures
        ({
            let name = match file_name {
                Some(n) => n@,
                None => "codey-official.json"@,
            };
            &&& starts_with(r@, "."@ + name + "."@)
            &&& ends_with(r@, ".tmp"@)
            &&& r@.len() == name.len() + 42
        }),
{
    let name = match file_name {
        Some(n) => n,
        None => "codey-official.json",
    };
    let front = cat3(".", name, ".");
    let id = fresh_id(front.as_str());
    let r = cat2(id.as_str(), ".tmp");
    proof {
        reveal_strlit(".");
        reveal_strlit(".tmp");
        form_has_length(id@, front@);
        assert(id@.subrange(0, front@.len() as int) =~= front@);
        assert(r@.subrange(0, front@.len() as int) =~= front@);
        assert(r@.subrange(r@.len() - 4, r@.len() as int) =~= ".tmp"@);
    }
    r
}

/// Whatever a catalog says, a model in it is left no effort that Codex does not take.
pub proof fn efforts_are_capped(model: JsonV)
    ensures
        allowed_effort(clamped(model).str_or_empty("default_reasoning_level"@)),
        clamped(model).get_array("supported_reasoning_levels"@) matches Some(levels)
            ==> forall|i: int|
            0 <= i < levels.len() ==> level_is_allowed(#[trigger] levels[i]),
{
    reveal_strlit("default_reasoning_level");
    reveal_strlit("supported_reasoning_levels");
    assert("default_reasoning_level"@.len() == 23);
    assert("supported_reasoning_levels"@.len() == 26);
    match model.get_array("supported_reasoning_levels"@) {
        Some(levels) => {
            lemma_levels_allowed(levels);
        },
        None => {},
    }
}

proof fn lemma_levels_allowed(levels: Seq<JsonV>)
    ensures
        forall|i: int|
            0 <= i < allowed_levels(levels).len() ==> level_is_allowed(
                #[trigger] allowed_levels(levels)[i],
            ),
    decreases levels.len(),
{
    if levels.len() > 0 {
        lemma_levels_allowed(levels.drop_last());
        let rest = allowed_levels(levels.drop_last());
        let all = allowed_levels(levels);
        assert forall|i: int| 0 <= i < all.len() implies level_is_allowed(#[trigger] all[i]) by {
            if i < rest.len() {
                assert(all[i] == rest[i]);
            }
        }
    }
}

/// Two entries of a catalog never have the same slug.
pub proof fn each_slug_stands_once(models: Seq<JsonV>, i: int, j: int)
    requires
        0 <= i < j < entries(models).len(),
    ensures
        entries(models)[i].get_str("slug"@) != entries(models)[j].get_str("slug"@),
    decreases models.len(),
{
    let rest = entries(models.drop_last());
    if j < rest.len() {
        each_slug_stands_once(models.drop_last(), i, j);
    } else {
        let slug = trim(models.last().get_str("slug"@)->0);
        with_then_get(models.last(), "slug"@, JsonV::Str(slug), "slug"@);
        if rest[i].get_str("slug"@) == Some(slug) {
            assert(has_slug(rest, slug));
        }
    }
}

/// A model that is added for a third party is one that the provider has and that no official entry
/// stands for, and it is added once.
pub proof fn added_models_are_new(
    official: Seq<JsonV>,
    upstream: Seq<Seq<char>>,
    selected: Seq<Seq<char>>,
    i: int,
    j: int,
)
    requires
        0 <= i < j < added(official, upstream, selected).len(),
    ensures
        addable(added(official, upstream, selected)[i].0, official, upstream),
        addable(added(official, upstream, selected)[j].0, official, upstream),
        added(official, upstream, selected)[i].0 != added(official, upstream, selected)[j].0,
    decreases selected.len(),
{
    let rest = added(official, upstream, selected.drop_last());
    if j < rest.len() {
        added_models_are_new(official, upstream, selected.drop_last(), i, j);
    } else {
        lemma_added_is_addable(official, upstream, selected.drop_last(), i);
        let _ = rest[i];
    }
}

proof fn lemma_added_is_addable(
    official: Seq<JsonV>,
    upstream: Seq<Seq<char>>,
    selected: Seq<Seq<char>>,
    i: int,
)
    requires
        0 <= i < added(official, upstream, selected).len(),
    ensures
        addable(added(official, upstream, selected)[i].0, official, upstream),
    decreases selected.len(),
{
    if i < added(official, upstream, selected.drop_last()).len() {
        lemma_added_is_addable(official, upstream, selected.drop_last(), i);
    }
}

/// Every slug of a catalog is there once it has been read, and no other is.
pub proof fn every_slug_is_read(models: Seq<JsonV>, slug: Seq<char>)
    ensures
        has_slug(entries(models), slug) <==> slug.len() > 0 && exists|i: int|
            0 <= i < models.len() && has_trimmed_slug(#[trigger] models[i], slug),
    decreases models.len(),
{
    if models.len() > 0 {
        let rest = models.drop_last();
        let read = entries(models);
        let before = entries(rest);
        every_slug_is_read(rest, slug);
        if has_slug(before, slug) {
            let i = choose|i: int|
                0 <= i < before.len() && (#[trigger] before[i]).get_str("slug"@) == Some(slug);
            assert(read[i] == before[i]);
            assert(has_slug(read, slug));
            let k = choose|k: int|
                0 <= k < rest.len() && has_trimmed_slug(#[trigger] rest[k], slug);
            assert(has_trimmed_slug(models[k], slug));
        }
        let last = models.last();
        assert(models[models.len() - 1] == last);
        if let Some(s) = last.get_str("slug"@) {
            let own = trim(s);
            with_then_get(last, "slug"@, JsonV::Str(own), "slug"@);
            if own.len() > 0 && !has_slug(before, own) {
                assert(read[before.len() as int] == last.with("slug"@, JsonV::Str(own)));
                assert(last.is_object());
                if own == slug {
                    assert(has_slug(read, slug));
                    assert(has_trimmed_slug(last, slug));
                }
            }
        }
        if has_slug(read, slug) && !has_slug(before, slug) {
            let i = choose|i: int|
                0 <= i < read.len() && (#[trigger] read[i]).get_str("slug"@) == Some(slug);
            if i < before.len() {
                assert(before[i] == read[i]);
                assert(false);
            }
            assert(has_trimmed_slug(last, slug));
        }
        if slug.len() > 0 && exists|i: int|
            0 <= i < models.len() && has_trimmed_slug(#[trigger] models[i], slug) {
            let i = choose|i: int|
                0 <= i < models.len() && has_trimmed_slug(#[trigger] models[i], slug);
            if i < rest.len() {
                assert(has_trimmed_slug(rest[i], slug));
            }
        }
    }
}

/// The model says that this is its slug, apart from white space around it.
pub open spec fn has_trimmed_slug(model: JsonV, slug: Seq<char>) -> bool {
    model.get("slug"@) is Some && (model.get("slug"@)->0 matches JsonV::Str(s) && trim(s) == slug)
}

/// Every model that was selected, that the provider has and that no official entry stands for, is
/// added; and what is added was selected.
pub proof fn every_selected_model_is_added(
    official: Seq<JsonV>,
    upstream: Seq<Seq<char>>,
    selected: Seq<Seq<char>>,
    model: Seq<char>,
)
    ensures
        is_added(added(official, upstream, selected), model) <==> addable(model, official, upstream)
            && exists|i: int| 0 <= i < selected.len() && trim(#[trigger] selected[i]) == model,
    decreases selected.len(),
{
    if selected.len() > 0 {
        let rest = selected.drop_last();
        let before = added(official, upstream, rest);
        let after = added(official, upstream, selected);
        let last = trim(selected.last());
        every_selected_model_is_added(official, upstream, rest, model);
        every_selected_model_is_added(official, upstream, rest, last);
        assert(selected[selected.len() - 1] == selected.last());
        if is_added(before, model) {
            let k = choose|k: int| 0 <= k < before.len() && (#[trigger] before[k]).0 == model;
            assert(after[k] == before[k]);
            let i = choose|i: int| 0 <= i < rest.len() && trim(#[trigger] rest[i]) == model;
            assert(trim(selected[i]) == model);
        }
        if addable(last, official, upstream) && !is_added(before, last) {
            assert(after[before.len() as int].0 == last);
        }
        if is_added(after, model) && !is_added(before, model) {
            let k = choose|k: int| 0 <= k < after.len() && (#[trigger] after[k]).0 == model;
            if k < before.len() {
                assert(before[k] == after[k]);
            }
            assert(model == last);
        }
        if exists|i: int| 0 <= i < selected.len() && trim(#[trigger] selected[i]) == model {
            let i = choose|i: int| 0 <= i < selected.len() && trim(#[trigger] selected[i]) == model;
            if i < rest.len() {
                assert(trim(rest[i]) == model);
            } else {
                assert(model == last);
                if addable(model, official, upstream) {
                    assert(is_added(after, model)) by {
                        if is_added(before, last) {
                            let k = choose|k: int|
                                0 <= k < before.len() && (#[trigger] before[k]).0 == last;
                            assert(after[k].0 == model);
                        } else {
                            assert(after[before.len() as int].0 == model);
                        }
                    }
                }
            }
        }
    }
}

/// The model is among those that were added.
pub open spec fn is_added(list: Seq<(Seq<char>, int)>, model: Seq<char>) -> bool {
    exists|k: int| 0 <= k < list.len() && (#[trigger] list[k]).0 == model
}

/// Official models are kept one by one, in their order.
pub proof fn official_models_are_kept_one_by_one(
    first: Seq<JsonV>,
    second: Seq<JsonV>,
    official_provider: bool,
    upstream: Seq<Seq<char>>,
)
    ensures
        kept_official(first + second, official_provider, upstream) == kept_official(
            first,
            official_provider,
            upstream,
        ) + kept_official(second, official_provider, upstream),
    decreases second.len(),
{
    if second.len() == 0 {
        assert(first + second =~= first);
        assert(kept_official(first, official_provider, upstream) + Seq::<JsonV>::empty()
            =~= kept_official(first, official_provider, upstream));
    } else {
        assert((first + second).drop_last() =~= first + second.drop_last());
        assert((first + second).last() == second.last());
        official_models_are_kept_one_by_one(
            first,
            second.drop_last(),
            official_provider,
            upstream,
        );
        assert(kept_official(first + second, official_provider, upstream) =~= kept_official(
            first,
            official_provider,
            upstream,
        ) + kept_official(second, official_provider, upstream));
    }
}

/// The official provider has every official model; any other provider has those that are listed and
/// that it says it has. A model that is kept is as it was, but for what Codex needs to be told of its
/// reasoning.
pub proof fn an_official_model_is_kept_where_it_can_be_used(
    model: JsonV,
    official_provider: bool,
    upstream: Seq<Seq<char>>,
    key: Seq<char>,
)
    ensures
        ({
            let kept = kept_official(seq![model], official_provider, upstream);
            let offered = model.get("visibility"@) == Some(JsonV::Str("list"@)) && model.get(
                "slug"@,
            ) is Some && (model.get("slug"@)->0 matches JsonV::Str(s) && upstream.contains(s));
            &&& official_provider || offered ==> kept.len() == 1
            &&& !official_provider && !offered ==> kept.len() == 0
            &&& kept.len() == 1 && key != "supports_reasoning_summaries"@ && key
                != "supported_reasoning_levels"@ && key != "default_reasoning_level"@ ==> kept[0].get(
                key,
            ) == model.get(key)
        }),
{
    let one = seq![model];
    assert(one.drop_last() =~= Seq::<JsonV>::empty());
    assert(kept_official(one.drop_last(), official_provider, upstream) =~= Seq::<JsonV>::empty());
    assert(one.last() == model);
}

/// A model that is added for a third party is shown by its own name, and is known as such.
pub proof fn an_added_model_is_shown(template: JsonV, model_id: Seq<char>, index: int)
    requires
        template.is_object(),
        trim(model_id) == model_id,
        model_id.len() > 0,
    ensures
        shown(synthetic(template, model_id, index)) == Some((model_id, model_id)),
        synthetic(template, model_id, index).get("codey_source"@) == Some(
            JsonV::Str("third_party"@),
        ),
{
    reveal_strlit("slug");
    reveal_strlit("display_name");
    reveal_strlit("description");
    reveal_strlit("visibility");
    reveal_strlit("priority");
    reveal_strlit("supported_in_api");
    reveal_strlit("service_tiers");
    reveal_strlit("additional_speed_tiers");
    reveal_strlit("codey_source");
    reveal_strlit("availability_nux");
    reveal_strlit("upgrade");
    reveal_strlit("supports_reasoning_summaries");
    reveal_strlit("supported_reasoning_levels");
    reveal_strlit("default_reasoning_level");
    assert("slug"@.len() == 4);
    assert("display_name"@.len() == 12 && "display_name"@[0] == 'd');
    assert("description"@.len() == 11);
    assert("visibility"@.len() == 10);
    assert("priority"@.len() == 8);
    assert("supported_in_api"@.len() == 16 && "supported_in_api"@[0] == 's');
    assert("service_tiers"@.len() == 13);
    assert("additional_speed_tiers"@.len() == 22);
    assert("codey_source"@.len() == 12 && "codey_source"@[0] == 'c');
    assert("availability_nux"@.len() == 16 && "availability_nux"@[0] == 'a');
    assert("upgrade"@.len() == 7);
    assert("supports_reasoning_summaries"@.len() == 28);
    assert("supported_reasoning_levels"@.len() == 26);
    assert("default_reasoning_level"@.len() == 23);
}

/// The source is a document with models to offer, or with models that are shown.
pub open spec fn offers_models(source: SourceV, only_shown: bool) -> bool {
    source matches SourceV::Document(v) && if only_shown {
        shown_models(official_models(v)).len() > 0
    } else {
        official_models(v).len() > 0
    }
}

proof fn lemma_first_offer(sources: Seq<SourceV>, only_shown: bool, n: int, i: int)
    requires
        0 <= n <= sources.len(),
    ensures
        0 <= i < n && offers_models(sources[i], only_shown) && (forall|j: int|
            0 <= j < i ==> !offers_models(#[trigger] sources[j], only_shown)) ==> first_source(
            sources,
            only_shown,
            n,
        ) == Some(i),
        (forall|j: int| 0 <= j < n ==> !offers_models(#[trigger] sources[j], only_shown))
            ==> first_source(sources, only_shown, n) is None,
    decreases n,
{
    if n > 0 {
        lemma_first_offer(sources, only_shown, n - 1, i);
        let _ = sources[n - 1];
    }
}

/// The models are those of the first source that has any; a source that cannot be read is passed over
/// for a later one; and where none has any, there are no models.
pub proof fn the_first_catalog_with_models_counts(sources: Seq<SourceV>, i: int)
    ensures
        0 <= i < sources.len() && offers_models(sources[i], false) && (forall|j: int|
            0 <= j < i ==> !offers_models(#[trigger] sources[j], false)) ==> official_of(sources)
            == Ok::<Seq<JsonV>, Seq<char>>(official_models(sources[i]->Document_0)),
        0 <= i < sources.len() && offers_models(sources[i], true) && (forall|j: int|
            0 <= j < i ==> !offers_models(#[trigger] sources[j], true)) ==> visible_of(sources)
            == Ok::<Seq<(Seq<char>, Seq<char>)>, Seq<char>>(
            shown_models(official_models(sources[i]->Document_0)),
        ),
        (forall|j: int|
            0 <= j < sources.len() ==> !offers_models(#[trigger] sources[j], false)) ==> official_of(
            sources,
        ) is Err,
        (forall|j: int|
            0 <= j < sources.len() ==> !offers_models(#[trigger] sources[j], true)) ==> visible_of(
            sources,
        ) is Err,
{
    lemma_first_offer(sources, false, sources.len() as int, i);
    lemma_first_offer(sources, true, sources.len() as int, i);
}

/// Only models that were not added for a third party are official, and all of those are, in order.
pub proof fn only_third_party_models_are_left_out(
    first: Seq<JsonV>,
    model: JsonV,
    second: Seq<JsonV>,
)
    ensures
        not_third_party(first.push(model) + second) == not_third_party(first) + (if model.get(
            "codey_source"@,
        ) == Some(JsonV::Str("third_party"@)) {
            Seq::empty()
        } else {
            seq![model]
        }) + not_third_party(second),
    decreases second.len(),
{
    let all = first.push(model) + second;
    let own = if model.get("codey_source"@) == Some(JsonV::Str("third_party"@)) {
        Seq::empty()
    } else {
        seq![model]
    };
    if second.len() == 0 {
        assert(all =~= first.push(model));
        assert(all.drop_last() =~= first);
        assert(all.last() == model);
    } else {
        only_third_party_models_are_left_out(first, model, second.drop_last());
        assert(all.drop_last() =~= first.push(model) + second.drop_last());
        assert(all.last() == second.last());
    }
    assert(not_third_party(all) =~= not_third_party(first) + own + not_third_party(second));
}

} // verus!
