//! The models that a provider lists.
use crate::json::{Json, JsonV, json_parsed, parse_bytes, string_view, text_view, views};
use crate::text::{
    Sep, cat2, cat4, list_has, listed_is_contained, split, split_text, str_eq, texts, texts_push,
    trim, trim_end_of, trimmed, trimmed_end_of,
};
use crate::urls::{
    UrlParts, UrlV, is_web_scheme, normalize_url, normalized_url, parse_url, url_parsed,
    web_scheme,
};
use vstd::prelude::*;
use vstd::string::*;

verus! {

pub open spec fn texts_result(r: Result<Vec<String>, String>) -> Result<
    Seq<Seq<char>>,
    Seq<char>,
> {
    match r {
        Ok(v) => Ok(texts(v@)),
        Err(e) => Err(e@),
    }
}

/// The last part of a path.
pub open spec fn last_segment(path: Seq<char>) -> Seq<char> {
    split(trim_end_of(path, '/'), Sep::Char('/')).last()
}

/// Where a provider at this address may list its models.
pub open spec fn endpoints_of(url: UrlV) -> Result<Seq<Seq<char>>, Seq<char>> {
    let base = trim_end_of(url.text, '/');
    if !is_web_scheme(url.scheme) {
        Err("API 地址仅支持 HTTP 或 HTTPS"@)
    } else if last_segment(url.path) == "models"@ {
        Ok(seq![base])
    } else if last_segment(url.path) == "v1"@ {
        Ok(seq![base + "/models"@])
    } else {
        Ok(seq![base + "/v1/models"@, base + "/models"@])
    }
}

/// Where a provider at this address may list its models.
pub fn endpoints_of_url(url: &UrlParts) -> (r: Result<Vec<String>, String>)
    ensures
        texts_result(r) == endpoints_of(url@),
{
    if !web_scheme(url.scheme.as_str()) {
        return Err("API 地址仅支持 HTTP 或 HTTPS".to_owned());
    }
    let base = trimmed_end_of(url.text.as_str(), '/');
    let segments = split_text(trimmed_end_of(url.path.as_str(), '/').as_str(), Sep::Char('/'));
    proof {
        assert(texts(segments@).len() > 0);
        assert(texts(segments@).last() == segments@.last()@);
    }
    let last = segments[segments.len() - 1].as_str();
    let mut out: Vec<String> = Vec::new();
    if str_eq(last, "models") {
        out.push(base);
        proof {
            assert(texts(out@) =~= seq![trim_end_of(url.text@, '/')]);
        }
    } else if str_eq(last, "v1") {
        out.push(cat2(base.as_str(), "/models"));
        proof {
            assert(texts(out@) =~= seq![trim_end_of(url.text@, '/') + "/models"@]);
        }
    } else {
        out.push(cat2(base.as_str(), "/v1/models"));
        out.push(cat2(base.as_str(), "/models"));
        proof {
            assert(texts(out@) =~= seq![
                trim_end_of(url.text@, '/') + "/v1/models"@,
                trim_end_of(url.text@, '/') + "/models"@,
            ]);
        }
    }
    Ok(out)
}

/// Where a provider at this address may list its models.
pub open spec fn endpoints(base: Seq<char>) -> Result<Seq<Seq<char>>, Seq<char>> {
    match url_parsed(base) {
        None => Err("API 地址格式无效"@),
        Some(url) => endpoints_of(url),
    }
}

/// Where a provider at this address may list its models.
pub fn model_endpoints(base: &str) -> (r: Result<Vec<String>, String>)
    ensures
        texts_result(r) == endpoints(base@),
{
    match parse_url(base) {
        None => Err("API 地址格式无效".to_owned()),
        Some(url) => endpoints_of_url(&url),
    }
}

/// The name of a model in a list.
pub open spec fn item_name(item: JsonV) -> Option<Seq<char>> {
    match item.as_str() {
        Some(s) => Some(s),
        None => match item.get_str("id"@) {
            Some(s) => Some(s),
            None => match item.get_str("name"@) {
                Some(s) => Some(s),
                None => match item.get_str("slug"@) {
                    Some(s) => Some(s),
                    None => item.get_str("model"@),
                },
            },
        },
    }
}

fn name_of(item: &Json) -> (r: Option<&str>)
    ensures
        text_view(r) == item_name(item@),
{
    if let Some(s) = item.as_str() {
        return Some(s);
    }
    if let Some(s) = item.get_str("id") {
        return Some(s);
    }
    if let Some(s) = item.get_str("name") {
        return Some(s);
    }
    if let Some(s) = item.get_str("slug") {
        return Some(s);
    }
    item.get_str("model")
}

/// The names in a list, trimmed, each once.
pub open spec fn names_in(items: Seq<JsonV>) -> Seq<Seq<char>>
    decreases items.len(),
{
    if items.len() == 0 {
        Seq::empty()
    } else {
        let rest = names_in(items.drop_last());
        match item_name(items.last()) {
            None => rest,
            Some(s) => if trim(s).len() == 0 || rest.contains(trim(s)) {
                rest
            } else {
                rest.push(trim(s))
            },
        }
    }
}

/// The list in an answer.
pub open spec fn answer_list(value: JsonV) -> Option<Seq<JsonV>> {
    match value.as_array() {
        Some(items) => Some(items),
        None => match value.get_array("data"@) {
            Some(items) => Some(items),
            None => value.get_array("models"@),
        },
    }
}

/// The models in an answer.
pub open spec fn models_in(value: JsonV) -> Result<Seq<Seq<char>>, Seq<char>> {
    match answer_list(value) {
        Some(items) => Ok(names_in(items)),
        None => Err("上游模型列表格式不受支持"@),
    }
}

/// The models in an answer.
pub fn model_ids_of(value: &Json) -> (r: Result<Vec<String>, String>)
    ensures
        texts_result(r) == models_in(value@),
{
    let found = match value.as_array() {
        Some(items) => Some(items),
        None => match value.get_array("data") {
            Some(items) => Some(items),
            None => value.get_array("models"),
        },
    };
    let items = match found {
        None => {
            return Err("上游模型列表格式不受支持".to_owned());
        },
        Some(items) => items,
    };
    let ghost all = views(items@);
    let mut out: Vec<String> = Vec::new();
    let mut i: usize = 0;
    proof {
        assert(texts(out@) =~= names_in(all.subrange(0, 0)));
    }
    while i < items.len()
        invariant
            i <= items.len(),
            all == views(items@),
            texts(out@) == names_in(all.subrange(0, i as int)),
        decreases items.len() - i,
    {
        proof {
            assert(all.subrange(0, i + 1).drop_last() =~= all.subrange(0, i as int));
            assert(all.subrange(0, i + 1).last() == items@[i as int]@);
        }
        if let Some(s) = name_of(&items[i]) {
            let name = trimmed(s);
            proof {
                listed_is_contained(out@, name@);
            }
            if !name.as_str().is_empty() && !list_has(&out, name.as_str()) {
                proof {
                    texts_push(out@, name);
                }
                out.push(name);
            }
        }
        i = i + 1;
    }
    proof {
        assert(all.subrange(0, i as int) =~= all);
    }
    Ok(out)
}

/// The models in the body of an answer.
pub open spec fn models_in_body(body: Seq<u8>) -> Result<Seq<Seq<char>>, Seq<char>> {
    match json_parsed(body) {
        Err(_) => Err("模型列表不是有效 JSON"@),
        Ok(value) => models_in(value),
    }
}

/// The models in the body of an answer.
pub fn model_ids(body: &[u8]) -> (r: Result<Vec<String>, String>)
    ensures
        texts_result(r) == models_in_body(body@),
{
    match parse_bytes(body) {
        Err(_) => Err("模型列表不是有效 JSON".to_owned()),
        Ok(value) => model_ids_of(&value),
    }
}

/// How a provider is asked for its models.
#[derive(Debug)]
pub struct ModelsRequest {
    /// Where to ask, one after the other.
    pub endpoints: Vec<String>,
    /// The key that goes with the question, where there is one.
    pub key: Option<String>,
}

pub open spec fn models_request(base_url: Seq<char>, api_key: Seq<char>) -> Result<
    (Seq<Seq<char>>, Option<Seq<char>>),
    Seq<char>,
> {
    let base = normalized_url(base_url);
    if base.len() == 0 {
        Err("API 地址不能为空"@)
    } else {
        match endpoints(base) {
            Err(e) => Err(e),
            Ok(list) => Ok(
                (
                    list,
                    if trim(api_key).len() > 0 {
                        Some(trim(api_key))
                    } else {
                        None
                    },
                ),
            ),
        }
    }
}

/// How to ask a provider for its models.
pub fn plan_models_request(base_url: &str, api_key: &str) -> (r: Result<ModelsRequest, String>)
    ensures
        match r {
            Ok(p) => models_request(base_url@, api_key@) == Ok::<
                (Seq<Seq<char>>, Option<Seq<char>>),
                Seq<char>,
            >((texts(p.endpoints@), string_view(p.key))),
            Err(e) => models_request(base_url@, api_key@) == Err::<
                (Seq<Seq<char>>, Option<Seq<char>>),
                Seq<char>,
            >(e@),
        },
{
    let base = normalize_url(base_url);
    if base.as_str().is_empty() {
        return Err("API 地址不能为空".to_owned());
    }
    match model_endpoints(base.as_str()) {
        Err(e) => Err(e),
        Ok(endpoints) => {
            let key = trimmed(api_key);
            let key = if key.as_str().is_empty() {
                None
            } else {
                Some(key)
            };
            Ok(ModelsRequest { endpoints, key })
        },
    }
}

/// What to do after an answer.
#[derive(Debug)]
pub enum ModelsStep {
    /// Ask at the next place.
    Next,
    Done(Vec<String>),
    /// Give up; the words, and what they come from.
    Fail(String, String),
}

#[verifier::ext_equal]
pub enum ModelsStepV {
    Next,
    Done(Seq<Seq<char>>),
    Fail(Seq<char>, Seq<char>),
}

impl View for ModelsStep {
    type V = ModelsStepV;

    open spec fn view(&self) -> ModelsStepV {
        match self {
            ModelsStep::Next => ModelsStepV::Next,
            ModelsStep::Done(v) => ModelsStepV::Done(texts(v@)),
            ModelsStep::Fail(a, b) => ModelsStepV::Fail(a@, b@),
        }
    }
}

/// What to do after an answer. A place that does not list models, or lists them in an unknown form,
/// is passed over while another is left.
pub open spec fn models_step(
    endpoint: Seq<char>,
    status: u16,
    status_text: Seq<char>,
    has_fallback: bool,
    models: Result<Seq<Seq<char>>, Seq<char>>,
) -> ModelsStepV {
    if (status == 404 || status == 405) && has_fallback {
        ModelsStepV::Next
    } else if !(200 <= status < 300) {
        ModelsStepV::Fail(
            "获取上游模型失败："@ + endpoint + " 返回 HTTP "@ + status_text,
            Seq::empty(),
        )
    } else {
        match models {
            Ok(list) => ModelsStepV::Done(list),
            Err(e) => if has_fallback {
                ModelsStepV::Next
            } else {
                ModelsStepV::Fail("解析上游模型列表失败："@ + endpoint, e)
            },
        }
    }
}

/// What to do after an answer, by its models.
pub fn judge_models(
    endpoint: &str,
    status: u16,
    status_text: &str,
    has_fallback: bool,
    models: Result<Vec<String>, String>,
) -> (r: ModelsStep)
    ensures
        r@ == models_step(endpoint@, status, status_text@, has_fallback, texts_result(models)),
{
    if (status == 404 || status == 405) && has_fallback {
        return ModelsStep::Next;
    }
    if !(200 <= status && status < 300) {
        let none = String::new();
        return ModelsStep::Fail(
            cat4("获取上游模型失败：", endpoint, " 返回 HTTP ", status_text),
            none,
        );
    }
    match models {
        Ok(list) => ModelsStep::Done(list),
        Err(e) => if has_fallback {
            ModelsStep::Next
        } else {
            ModelsStep::Fail(cat2("解析上游模型列表失败：", endpoint), e)
        },
    }
}

/// What to do after an answer.
pub fn judge_models_answer(
    endpoint: &str,
    status: u16,
    status_text: &str,
    has_fallback: bool,
    body: &[u8],
) -> (r: ModelsStep)
    ensures
        r@ == models_step(endpoint@, status, status_text@, has_fallback, models_in_body(body@)),
{
    judge_models(endpoint, status, status_text, has_fallback, model_ids(body))
}

/// No model is listed twice.
pub proof fn each_model_is_listed_once(items: Seq<JsonV>, i: int, j: int)
    requires
        0 <= i < j < names_in(items).len(),
    ensures
        names_in(items)[i] != names_in(items)[j],
    decreases items.len(),
{
    let rest = names_in(items.drop_last());
    if j < rest.len() {
        each_model_is_listed_once(items.drop_last(), i, j);
    } else {
        assert(rest.contains(rest[i]));
    }
}

/// The item names this model: it is the name, or it holds the name in the first of its members that
/// does.
pub open spec fn item_says(item: JsonV, name: Seq<char>) -> bool {
    let said = |key: Seq<char>| item.get(key) is Some && item.get(key)->0 is Str;
    let says = |key: Seq<char>| item.get(key) is Some && (item.get(key)->0 matches JsonV::Str(s)
        && trim(s) == name);
    ||| item matches JsonV::Str(s) && trim(s) == name
    ||| says("id"@)
    ||| !said("id"@) && says("name"@)
    ||| !said("id"@) && !said("name"@) && says("slug"@)
    ||| !said("id"@) && !said("name"@) && !said("slug"@) && says("model"@)
}

/// Every model that an answer names is listed, and no other is.
pub proof fn every_named_model_is_listed(items: Seq<JsonV>, name: Seq<char>)
    ensures
        names_in(items).contains(name) <==> name.len() > 0 && exists|i: int|
            0 <= i < items.len() && item_says(#[trigger] items[i], name),
    decreases items.len(),
{
    if items.len() > 0 {
        let rest = items.drop_last();
        let before = names_in(rest);
        let after = names_in(items);
        every_named_model_is_listed(rest, name);
        assert(items[items.len() - 1] == items.last());
        let last = item_name(items.last());
        assert(item_says(items.last(), name) <==> last is Some && trim(last->0) == name);
        if before.contains(name) {
            let k = choose|k: int| 0 <= k < before.len() && before[k] == name;
            assert(after[k] == name);
            let i = choose|i: int| 0 <= i < rest.len() && item_says(#[trigger] rest[i], name);
            assert(item_says(items[i], name));
        }
        if last is Some && trim(last->0) == name && name.len() > 0 && !before.contains(name) {
            assert(after[before.len() as int] == name);
        }
        if after.contains(name) && !before.contains(name) {
            let k = choose|k: int| 0 <= k < after.len() && after[k] == name;
            if k < before.len() {
                assert(before[k] == name);
            }
        }
        if exists|i: int| 0 <= i < items.len() && item_says(#[trigger] items[i], name) {
            let i = choose|i: int| 0 <= i < items.len() && item_says(#[trigger] items[i], name);
            if i < rest.len() {
                assert(item_says(rest[i], name));
            }
        }
    }
}

/// A place that does not list models, or lists them in an unknown form, is passed over as long as
/// another is left; a list that was read is taken; anything else fails.
pub proof fn a_place_without_models_is_passed_over(
    endpoint: Seq<char>,
    status: u16,
    status_text: Seq<char>,
    has_fallback: bool,
    models: Result<Seq<Seq<char>>, Seq<char>>,
)
    ensures
        ({
            let step = models_step(endpoint, status, status_text, has_fallback, models);
            let good = 200 <= status < 300;
            &&& step is Done <==> good && models is Ok
            &&& good && models is Ok ==> step == ModelsStepV::Done(models->Ok_0)
            &&& step is Next <==> has_fallback && (status == 404 || status == 405 || (good
                && models is Err))
        }),
{
}

} // verus!
