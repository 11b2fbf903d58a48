//! A Responses request as a request of the chat protocol.
use crate::json::{
    Json, JsonV, copy_items, opt_view, own_view, same_document, string_view, text_view, views,
    views_push,
};
use crate::local_router::compaction::{
    input_items, not_portable, portable, validate_portable_context,
};
use crate::local_router::errors::{Failure, FailureV, done_view, fail, fail_with, json_result};
use crate::text::{cat2, cat3, has_prefix, list_has, starts_with, str_eq, texts, trim, trimmed};
use vstd::prelude::*;
use vstd::string::*;

verus! {

/// An item that only its own protocol understands, and that is left out of a converted request.
pub open spec fn is_opaque(opaque_types: Seq<Seq<char>>, item: JsonV) -> bool {
    item.get_str("type"@) matches Some(t) && opaque_types.contains(t)
}

/// The tools that an item adds to the request, where it is such an item.
pub open spec fn added_tools(item: JsonV) -> Result<Option<Seq<JsonV>>, FailureV> {
    if item.get_str("type"@) != Some("additional_tools"@) {
        Ok(None)
    } else if item.get_str("role"@) != Some("developer"@) {
        Err(FailureV::Text("additional_tools.role 必须是 developer"@))
    } else {
        match item.get_array("tools"@) {
            Some(tools) => Ok(Some(tools)),
            None => Err(FailureV::Text("additional_tools.tools 必须是数组"@)),
        }
    }
}

/// The tools that the result of a search brought, where the item is such a result. Only a search
/// that the client made can be converted.
pub open spec fn searched_tools(item: JsonV) -> Result<Seq<JsonV>, FailureV> {
    if item.get_str("type"@) != Some("tool_search_output"@) {
        Ok(Seq::empty())
    } else if item.get_str("execution"@) != Some("client"@) {
        Err(FailureV::Text("tool_search_output 仅支持 client 执行方式"@))
    } else {
        match item.get_array("tools"@) {
            Some(tools) => Ok(tools),
            None => Err(FailureV::Text("tool_search_output.tools 必须是数组"@)),
        }
    }
}

/// The view of a list of documents or an error.
pub open spec fn list_result(r: Result<Vec<Json>, Failure>) -> Result<Seq<JsonV>, FailureV> {
    match r {
        Ok(v) => Ok(views(v@)),
        Err(e) => Err(e@),
    }
}

fn no_items() -> (r: Vec<Json>)
    ensures
        views(r@) == Seq::<JsonV>::empty(),
{
    let out: Vec<Json> = Vec::new();
    proof {
        assert(views(out@) =~= Seq::<JsonV>::empty());
    }
    out
}

/// The tools that an item adds, where it is such an item.
pub fn append_responses_additional_tools(item: &Json) -> (r: Result<Option<Vec<Json>>, Failure>)
    ensures
        match r {
            Ok(Some(tools)) => added_tools(item@) == Ok::<Option<Seq<JsonV>>, FailureV>(
                Some(views(tools@)),
            ),
            Ok(None) => added_tools(item@) == Ok::<Option<Seq<JsonV>>, FailureV>(None),
            Err(e) => added_tools(item@) == Err::<Option<Seq<JsonV>>, FailureV>(e@),
        },
{
    match item.get_str("type") {
        Some(t) => if !str_eq(t, "additional_tools") {
            return Ok(None);
        },
        None => {
            return Ok(None);
        },
    }
    let developer = match item.get_str("role") {
        Some(role) => str_eq(role, "developer"),
        None => false,
    };
    if !developer {
        return Err(fail("additional_tools.role 必须是 developer"));
    }
    match item.get_array("tools") {
        Some(tools) => Ok(Some(copy_items(tools))),
        None => Err(fail("additional_tools.tools 必须是数组")),
    }
}

/// The tools that the result of a search brought.
pub fn append_responses_tool_search_output_tools(item: &Json) -> (r: Result<Vec<Json>, Failure>)
    ensures
        list_result(r) == searched_tools(item@),
{
    match item.get_str("type") {
        Some(t) => if !str_eq(t, "tool_search_output") {
            return Ok(no_items());
        },
        None => {
            return Ok(no_items());
        },
    }
    let client = match item.get_str("execution") {
        Some(e) => str_eq(e, "client"),
        None => false,
    };
    if !client {
        return Err(fail("tool_search_output 仅支持 client 执行方式"));
    }
    match item.get_array("tools") {
        Some(tools) => Ok(copy_items(tools)),
        None => Err(fail("tool_search_output.tools 必须是数组")),
    }
}

/// The items of an input without those that add tools or are opaque, and the tools.
#[verifier::ext_equal]
pub struct SplitInput {
    pub items: Seq<JsonV>,
    pub tools: Seq<JsonV>,
}

/// One more item of an input.
pub open spec fn split_step(state: SplitInput, item: JsonV, opaque_types: Seq<Seq<char>>) -> Result<
    SplitInput,
    FailureV,
> {
    match added_tools(item) {
        Err(e) => Err(e),
        Ok(Some(tools)) => Ok(SplitInput { tools: state.tools + tools, ..state }),
        Ok(None) => match searched_tools(item) {
            Err(e) => Err(e),
            Ok(tools) => if is_opaque(opaque_types, item) {
                Ok(SplitInput { tools: state.tools + tools, ..state })
            } else {
                Ok(SplitInput { tools: state.tools + tools, items: state.items.push(item) })
            },
        },
    }
}

/// The first items of an input.
pub open spec fn split_steps(items: Seq<JsonV>, opaque_types: Seq<Seq<char>>, n: int) -> Result<
    SplitInput,
    FailureV,
>
    decreases n,
{
    if n <= 0 {
        Ok(SplitInput { items: Seq::empty(), tools: Seq::empty() })
    } else {
        match split_steps(items, opaque_types, n - 1) {
            Err(e) => Err(e),
            Ok(state) => split_step(state, items[n - 1], opaque_types),
        }
    }
}

proof fn lemma_split_error_stays(items: Seq<JsonV>, opaque_types: Seq<Seq<char>>, n: int, m: int)
    requires
        0 <= n <= m,
        split_steps(items, opaque_types, n) is Err,
    ensures
        split_steps(items, opaque_types, m) == split_steps(items, opaque_types, n),
    decreases m - n,
{
    if n < m {
        lemma_split_error_stays(items, opaque_types, n, m - 1);
    }
}

/// An input without the items that add tools or are opaque, and the tools.
pub open spec fn plain_input(input: Option<JsonV>, opaque_types: Seq<Seq<char>>) -> Result<
    (Option<JsonV>, Seq<JsonV>),
    FailureV,
> {
    match input {
        None => Ok((None, Seq::empty())),
        Some(JsonV::Array(items)) => match split_steps(items, opaque_types, items.len() as int) {
            Err(e) => Err(e),
            Ok(state) => Ok((Some(JsonV::Array(state.items)), state.tools)),
        },
        Some(v) => if !v.is_object() {
            Ok((Some(v), Seq::empty()))
        } else {
            match added_tools(v) {
                Err(e) => Err(e),
                Ok(Some(tools)) => Ok((None, tools)),
                Ok(None) => if is_opaque(opaque_types, v) {
                    Ok((None, Seq::empty()))
                } else {
                    match searched_tools(v) {
                        Err(e) => Err(e),
                        Ok(tools) => Ok((Some(v), tools)),
                    }
                },
            }
        },
    }
}

fn item_is_opaque(opaque_types: &Vec<String>, item: &Json) -> (r: bool)
    ensures
        r == is_opaque(texts(opaque_types@), item@),
{
    match item.get_str("type") {
        Some(t) => list_has(opaque_types, t),
        None => false,
    }
}

fn extend(out: &mut Vec<Json>, more: Vec<Json>)
    ensures
        views(final(out)@) == views(old(out)@) + views(more@),
{
    let ghost before = out@;
    let mut tail = more;
    let ghost added = tail@;
    out.append(&mut tail);
    proof {
        assert(views(out@) =~= views(before) + views(added));
    }
}

fn split_items(items: &Vec<Json>, opaque_types: &Vec<String>) -> (r: Result<
    (Vec<Json>, Vec<Json>),
    Failure,
>)
    ensures
        match r {
            Ok((kept, tools)) => split_steps(
                views(items@),
                texts(opaque_types@),
                items.len() as int,
            ) == Ok::<SplitInput, FailureV>(
                SplitInput { items: views(kept@), tools: views(tools@) },
            ),
            Err(e) => split_steps(views(items@), texts(opaque_types@), items.len() as int)
                == Err::<SplitInput, FailureV>(e@),
        },
{
    let ghost all = views(items@);
    let ghost types = texts(opaque_types@);
    let mut kept = no_items();
    let mut tools = no_items();
    let mut i: usize = 0;
    while i < items.len()
        invariant
            i <= items.len(),
            all == views(items@),
            types == texts(opaque_types@),
            split_steps(all, types, i as int) == Ok::<SplitInput, FailureV>(
                SplitInput { items: views(kept@), tools: views(tools@) },
            ),
        decreases items.len() - i,
    {
        let item = &items[i];
        proof {
            assert(all[i as int] == item@);
        }
        match append_responses_additional_tools(item) {
            Err(e) => {
                proof {
                    lemma_split_error_stays(all, types, i + 1, items.len() as int);
                }
                return Err(e);
            },
            Ok(Some(more)) => {
                extend(&mut tools, more);
            },
            Ok(None) => match append_responses_tool_search_output_tools(item) {
                Err(e) => {
                    proof {
                        lemma_split_error_stays(all, types, i + 1, items.len() as int);
                    }
                    return Err(e);
                },
                Ok(more) => {
                    extend(&mut tools, more);
                    if !item_is_opaque(opaque_types, item) {
                        let copy = item.clone_json();
                        proof {
                            views_push(kept@, copy);
                        }
                        kept.push(copy);
                    }
                },
            },
        }
        i = i + 1;
    }
    Ok((kept, tools))
}

/// An input without the items that add tools or are opaque, and the tools.
pub fn responses_input_without_additional_tools(
    input: Option<&Json>,
    opaque_types: &Vec<String>,
) -> (r: Result<(Option<Json>, Vec<Json>), Failure>)
    ensures
        match r {
            Ok((plain, tools)) => plain_input(opt_view(input), texts(opaque_types@)) == Ok::<
                (Option<JsonV>, Seq<JsonV>),
                FailureV,
            >((own_view(plain), views(tools@))),
            Err(e) => plain_input(opt_view(input), texts(opaque_types@)) == Err::<
                (Option<JsonV>, Seq<JsonV>),
                FailureV,
            >(e@),
        },
{
    let value = match input {
        None => {
            return Ok((None, no_items()));
        },
        Some(v) => v,
    };
    if let Some(items) = value.as_array() {
        return match split_items(items, opaque_types) {
            Err(e) => Err(e),
            Ok((kept, tools)) => Ok((Some(Json::array(kept)), tools)),
        };
    }
    if !value.is_object() {
        return Ok((Some(value.clone_json()), no_items()));
    }
    match append_responses_additional_tools(value) {
        Err(e) => Err(e),
        Ok(Some(tools)) => Ok((None, tools)),
        Ok(None) => {
            if item_is_opaque(opaque_types, value) {
                return Ok((None, no_items()));
            }
            match append_responses_tool_search_output_tools(value) {
                Err(e) => Err(e),
                Ok(tools) => Ok((Some(value.clone_json()), tools)),
            }
        },
    }
}

/// What tells a tool from others: its type and its name.
pub open spec fn tool_identity(tool: JsonV) -> Option<Seq<char>> {
    let kind = match tool.get_str("type"@) {
        Some(t) => t,
        None => "function"@,
    };
    let place = match tool.get("name"@) {
        Some(v) => Some(v),
        None => tool.get2("function"@, "name"@),
    };
    if !tool.is_object() {
        None
    } else if kind == "web_search"@ || kind == "web_search_preview"@ {
        Some("web_search"@)
    } else if kind == "tool_search"@ {
        Some(
            "tool_search/"@ + (match tool.get_str("execution"@) {
                Some(e) => e,
                None => "server"@,
            }),
        )
    } else {
        match place {
            Some(JsonV::Str(name)) => if name.len() > 0 {
                Some(kind + "/"@ + name)
            } else {
                None
            },
            _ => None,
        }
    }
}

/// What tells a tool from others.
pub fn responses_tool_identity(tool: &Json) -> (r: Option<String>)
    ensures
        string_view(r) == tool_identity(tool@),
{
    if !tool.is_object() {
        return None;
    }
    let kind = match tool.get_str("type") {
        Some(t) => t,
        None => "function",
    };
    if str_eq(kind, "web_search") || str_eq(kind, "web_search_preview") {
        return Some("web_search".to_owned());
    }
    if str_eq(kind, "tool_search") {
        let execution = match tool.get_str("execution") {
            Some(e) => e,
            None => "server",
        };
        return Some(cat2("tool_search/", execution));
    }
    let place = match tool.get("name") {
        Some(v) => Some(v),
        None => tool.get2("function", "name"),
    };
    match place {
        None => None,
        Some(v) => match v.as_str() {
            None => None,
            Some(name) => if name.is_empty() {
                None
            } else {
                Some(cat3(kind, "/", name))
            },
        },
    }
}

/// The first tool of a list with an identity.
pub open spec fn first_tool(tools: Seq<JsonV>, identity: Seq<char>) -> Option<JsonV>
    decreases tools.len(),
{
    if tools.len() == 0 {
        None
    } else if tool_identity(tools[0]) == Some(identity) {
        Some(tools[0])
    } else {
        first_tool(tools.subrange(1, tools.len() as int), identity)
    }
}

fn find_tool<'a>(tools: &'a Vec<Json>, identity: &str) -> (r: Option<&'a Json>)
    ensures
        opt_view(r) == first_tool(views(tools@), identity@),
{
    let ghost all = views(tools@);
    let mut i: usize = 0;
    proof {
        assert(all.subrange(0, all.len() as int) =~= all);
    }
    while i < tools.len()
        invariant
            i <= tools.len(),
            all == views(tools@),
            first_tool(all, identity@) == first_tool(
                all.subrange(i as int, all.len() as int),
                identity@,
            ),
        decreases tools.len() - i,
    {
        proof {
            let rest = all.subrange(i as int, all.len() as int);
            assert(rest[0] == tools@[i as int]@);
            assert(rest.subrange(1, rest.len() as int) =~= all.subrange(i + 1, all.len() as int));
        }
        if let Some(id) = responses_tool_identity(&tools[i]) {
            if str_eq(id.as_str(), identity) {
                return Some(&tools[i]);
            }
        }
        i = i + 1;
    }
    None
}

/// The configured tools with one more. A function that is there already in the same form is not
/// repeated.
pub open spec fn add_configured(merged: Seq<JsonV>, tool: JsonV) -> Seq<JsonV> {
    match tool_identity(tool) {
        Some(id) => if starts_with(id, "function/"@) && (first_tool(merged, id) matches Some(known)
            && same_document(known, tool)) {
            merged
        } else {
            merged.push(tool)
        },
        None => merged.push(tool),
    }
}

/// The tools with one that was added. It must not contradict one that is there.
pub open spec fn add_additional(merged: Seq<JsonV>, tool: JsonV) -> Result<Seq<JsonV>, FailureV> {
    match tool_identity(tool) {
        None => Ok(merged.push(tool)),
        Some(id) => match first_tool(merged, id) {
            None => Ok(merged.push(tool)),
            Some(known) => if same_document(known, tool) {
                Ok(merged)
            } else {
                Err(FailureV::Text("additional_tools 包含定义冲突的工具 "@ + id))
            },
        },
    }
}

pub open spec fn configured_tools(tools: Seq<JsonV>, n: int) -> Seq<JsonV>
    decreases n,
{
    if n <= 0 {
        Seq::empty()
    } else {
        add_configured(configured_tools(tools, n - 1), tools[n - 1])
    }
}

pub open spec fn additional_tools(merged: Seq<JsonV>, tools: Seq<JsonV>, n: int) -> Result<
    Seq<JsonV>,
    FailureV,
>
    decreases n,
{
    if n <= 0 {
        Ok(merged)
    } else {
        match additional_tools(merged, tools, n - 1) {
            Err(e) => Err(e),
            Ok(m) => add_additional(m, tools[n - 1]),
        }
    }
}

proof fn lemma_tool_error_stays(merged: Seq<JsonV>, tools: Seq<JsonV>, n: int, m: int)
    requires
        0 <= n <= m,
        additional_tools(merged, tools, n) is Err,
    ensures
        additional_tools(merged, tools, m) == additional_tools(merged, tools, n),
    decreases m - n,
{
    if n < m {
        lemma_tool_error_stays(merged, tools, n, m - 1);
    }
}

/// The tools of a request: those that it declares, then those that its input adds.
pub open spec fn merged_tools(configured: Option<JsonV>, additional: Seq<JsonV>) -> Result<
    Option<JsonV>,
    FailureV,
> {
    let declared = match configured {
        None => Ok(Seq::empty()),
        Some(JsonV::Array(tools)) => Ok(configured_tools(tools, tools.len() as int)),
        Some(_) => Err(FailureV::Text("tools 必须是数组"@)),
    };
    if configured is None && additional.len() == 0 {
        Ok(None)
    } else {
        match declared {
            Err(e) => Err(e),
            Ok(merged) => match additional_tools(merged, additional, additional.len() as int) {
                Err(e) => Err(e),
                Ok(all) => Ok(Some(JsonV::Array(all))),
            },
        }
    }
}

fn merge_configured(tools: &Vec<Json>) -> (r: Vec<Json>)
    ensures
        views(r@) == configured_tools(views(tools@), tools.len() as int),
{
    let ghost all = views(tools@);
    let mut merged = no_items();
    let mut i: usize = 0;
    while i < tools.len()
        invariant
            i <= tools.len(),
            all == views(tools@),
            views(merged@) == configured_tools(all, i as int),
        decreases tools.len() - i,
    {
        let tool = &tools[i];
        proof {
            assert(all[i as int] == tool@);
        }
        let mut repeated = false;
        if let Some(id) = responses_tool_identity(tool) {
            if has_prefix(id.as_str(), "function/") {
                if let Some(known) = find_tool(&merged, id.as_str()) {
                    repeated = known.same(tool);
                }
            }
        }
        if !repeated {
            let copy = tool.clone_json();
            proof {
                views_push(merged@, copy);
            }
            merged.push(copy);
        }
        i = i + 1;
    }
    merged
}

/// The tools of a request.
pub fn merge_responses_tools(configured: Option<&Json>, additional: &Vec<Json>) -> (r: Result<
    Option<Json>,
    Failure,
>)
    ensures
        match r {
            Ok(t) => merged_tools(opt_view(configured), views(additional@)) == Ok::<
                Option<JsonV>,
                FailureV,
            >(own_view(t)),
            Err(e) => merged_tools(opt_view(configured), views(additional@)) == Err::<
                Option<JsonV>,
                FailureV,
            >(e@),
        },
{
    if configured.is_none() && additional.len() == 0 {
        return Ok(None);
    }
    let mut merged = match configured {
        None => no_items(),
        Some(v) => match v.as_array() {
            Some(tools) => merge_configured(tools),
            None => {
                return Err(fail("tools 必须是数组"));
            },
        },
    };
    let ghost start = views(merged@);
    let ghost all = views(additional@);
    let mut i: usize = 0;
    while i < additional.len()
        invariant
            i <= additional.len(),
            all == views(additional@),
            additional_tools(start, all, i as int) == Ok::<Seq<JsonV>, FailureV>(views(merged@)),
            match opt_view(configured) {
                None => start == Seq::<JsonV>::empty(),
                Some(JsonV::Array(tools)) => start == configured_tools(tools, tools.len() as int),
                Some(_) => false,
            },
        decreases additional.len() - i,
    {
        let tool = &additional[i];
        proof {
            assert(all[i as int] == tool@);
        }
        let mut repeated = false;
        if let Some(id) = responses_tool_identity(tool) {
            if let Some(known) = find_tool(&merged, id.as_str()) {
                repeated = known.same(tool);
                if !repeated {
                    proof {
                        lemma_tool_error_stays(start, all, i + 1, additional.len() as int);
                    }
                    return Err(fail_with("additional_tools 包含定义冲突的工具 ", id.as_str()));
                }
            }
        }
        if !repeated {
            let copy = tool.clone_json();
            proof {
                views_push(merged@, copy);
            }
            merged.push(copy);
        }
        i = i + 1;
    }
    Ok(Some(Json::array(merged)))
}

pub open spec fn is_search(kind: Option<Seq<char>>) -> bool {
    kind == Some("web_search"@) || kind == Some("web_search_preview"@)
}

pub open spec fn is_callable(kind: Option<Seq<char>>) -> bool {
    kind == Some("function"@) || kind == Some("custom"@) || kind == Some("tool_search"@)
}

/// What is said of a choice of a tool that the chat protocol does not have.
pub open spec fn bad_choice(kind: Option<Seq<char>>) -> FailureV {
    match kind {
        Some(t) => FailureV::Text(
            "Responses tool_choice 类型 "@ + t + " 不能转换为 Chat Completions tool_choice"@,
        ),
        None => FailureV::Text("Responses tool_choice 缺少 type"@),
    }
}

fn fail_choice(kind: Option<&str>) -> (r: Failure)
    ensures
        r@ == bad_choice(text_view(kind)),
{
    match kind {
        Some(t) => Failure::Text(
            cat3("Responses tool_choice 类型 ", t, " 不能转换为 Chat Completions tool_choice"),
        ),
        None => fail("Responses tool_choice 缺少 type"),
    }
}

/// The search options of the chat request. A search that the client did not ask for is left out;
/// one that it did ask for must be the only tool.
pub open spec fn search_options(
    options: Option<JsonV>,
    tool_choice: Option<JsonV>,
    has_chat_tools: bool,
) -> Result<Option<JsonV>, FailureV> {
    match tool_choice {
        None => if options is Some {
            Err(
                FailureV::Text(
                    "Responses 可选 web_search 不能无损转换为 Chat Completions；请明确选择 web_search、required 或 none"@,
                ),
            )
        } else {
            Ok(None)
        },
        Some(JsonV::Str(choice)) => if choice == "auto"@ || choice == "none"@ {
            Ok(None)
        } else if choice == "required"@ {
            if options is Some && has_chat_tools {
                Err(
                    FailureV::Text(
                        "Responses tool_choice=required 同时包含 web_search 和其他工具，Chat Completions 无法无损表达"@,
                    ),
                )
            } else {
                Ok(options)
            }
        } else {
            Err(FailureV::Text("tool_choice 必须是 auto/none/required 或对象"@))
        },
        Some(choice) => if !choice.is_object() {
            Err(FailureV::Text("tool_choice 必须是 auto/none/required 或对象"@))
        } else if is_search(choice.get_str("type"@)) {
            if options is None {
                Err(FailureV::Text("Responses tool_choice 选择了未在 tools 中声明的 web_search"@))
            } else if has_chat_tools {
                Err(
                    FailureV::Text(
                        "Responses tool_choice 明确选择 web_search 时仍包含其他工具，Chat Completions 无法无损表达"@,
                    ),
                )
            } else {
                Ok(options)
            }
        } else if is_callable(choice.get_str("type"@)) {
            Ok(None)
        } else {
            Err(bad_choice(choice.get_str("type"@)))
        },
    }
}

fn kind_is_search(kind: Option<&str>) -> (r: bool)
    ensures
        r == is_search(text_view(kind)),
{
    match kind {
        Some(t) => str_eq(t, "web_search") || str_eq(t, "web_search_preview"),
        None => false,
    }
}

fn kind_is_callable(kind: Option<&str>) -> (r: bool)
    ensures
        r == is_callable(text_view(kind)),
{
    match kind {
        Some(t) => str_eq(t, "function") || str_eq(t, "custom") || str_eq(t, "tool_search"),
        None => false,
    }
}

fn copy_option(value: Option<&Json>) -> (r: Option<Json>)
    ensures
        own_view(r) == opt_view(value),
{
    match value {
        Some(v) => Some(v.clone_json()),
        None => None,
    }
}

/// The search options of the chat request.
pub fn chat_web_search_options_for_tool_choice(
    options: Option<&Json>,
    tool_choice: Option<&Json>,
    has_chat_tools: bool,
) -> (r: Result<Option<Json>, Failure>)
    ensures
        match r {
            Ok(o) => search_options(opt_view(options), opt_view(tool_choice), has_chat_tools)
                == Ok::<Option<JsonV>, FailureV>(own_view(o)),
            Err(e) => search_options(opt_view(options), opt_view(tool_choice), has_chat_tools)
                == Err::<Option<JsonV>, FailureV>(e@),
        },
{
    let choice = match tool_choice {
        None => {
            if options.is_some() {
                return Err(
                    fail("Responses 可选 web_search 不能无损转换为 Chat Completions；请明确选择 web_search、required 或 none"),
                );
            }
            return Ok(None);
        },
        Some(c) => c,
    };
    if let Some(name) = choice.as_str() {
        if str_eq(name, "auto") || str_eq(name, "none") {
            return Ok(None);
        }
        if str_eq(name, "required") {
            if options.is_some() && has_chat_tools {
                return Err(
                    fail("Responses tool_choice=required 同时包含 web_search 和其他工具，Chat Completions 无法无损表达"),
                );
            }
            return Ok(copy_option(options));
        }
        return Err(fail("tool_choice 必须是 auto/none/required 或对象"));
    }
    if !choice.is_object() {
        return Err(fail("tool_choice 必须是 auto/none/required 或对象"));
    }
    let kind = choice.get_str("type");
    if kind_is_search(kind) {
        if options.is_none() {
            return Err(fail("Responses tool_choice 选择了未在 tools 中声明的 web_search"));
        }
        if has_chat_tools {
            return Err(
                fail("Responses tool_choice 明确选择 web_search 时仍包含其他工具，Chat Completions 无法无损表达"),
            );
        }
        return Ok(copy_option(options));
    }
    if kind_is_callable(kind) {
        return Ok(None);
    }
    Err(fail_choice(kind))
}

/// A search that the chat protocol cannot report in full.
pub open spec fn include_check(value: Option<JsonV>) -> Result<(), FailureV> {
    match value {
        None => Ok(()),
        Some(JsonV::Array(entries)) => if exists|i: int|
            0 <= i < entries.len() && #[trigger] entries[i] == JsonV::Str(
                "web_search_call.action.sources"@,
            ) {
            Err(
                FailureV::Text(
                    "Responses include=web_search_call.action.sources 不能无损转换为 Chat Completions"@,
                ),
            )
        } else {
            Ok(())
        },
        Some(_) => Err(FailureV::Text("Responses include 必须是数组"@)),
    }
}

/// Fails where the client wants of a search what the chat protocol cannot report.
pub fn reject_unportable_chat_web_search_include(value: Option<&Json>) -> (r: Result<(), Failure>)
    ensures
        done_view(r) == include_check(opt_view(value)),
{
    let entries = match value {
        None => {
            return Ok(());
        },
        Some(v) => match v.as_array() {
            Some(e) => e,
            None => {
                return Err(fail("Responses include 必须是数组"));
            },
        },
    };
    let ghost all = views(entries@);
    let mut i: usize = 0;
    while i < entries.len()
        invariant
            i <= entries.len(),
            all == views(entries@),
            opt_view(value) == Some(JsonV::Array(all)),
            forall|j: int|
                0 <= j < i ==> #[trigger] all[j] != JsonV::Str("web_search_call.action.sources"@),
        decreases entries.len() - i,
    {
        proof {
            assert(all[i as int] == entries@[i as int]@);
        }
        if let Some(s) = entries[i].as_str() {
            if str_eq(s, "web_search_call.action.sources") {
                return Err(
                    fail("Responses include=web_search_call.action.sources 不能无损转换为 Chat Completions"),
                );
            }
        }
        i = i + 1;
    }
    Ok(())
}

/// The choice is that of a search.
pub open spec fn targets_search(choice: JsonV) -> Result<bool, FailureV> {
    if !choice.is_object() {
        Ok(false)
    } else if is_search(choice.get_str("type"@)) {
        Ok(true)
    } else if is_callable(choice.get_str("type"@)) {
        Ok(false)
    } else {
        Err(bad_choice(choice.get_str("type"@)))
    }
}

pub open spec fn bool_result(r: Result<bool, Failure>) -> Result<bool, FailureV> {
    match r {
        Ok(b) => Ok(b),
        Err(e) => Err(e@),
    }
}

/// Whether a choice is that of a search.
pub fn responses_tool_choice_targets_web_search(choice: &Json) -> (r: Result<bool, Failure>)
    ensures
        bool_result(r) == targets_search(choice@),
{
    if !choice.is_object() {
        return Ok(false);
    }
    let kind = choice.get_str("type");
    if kind_is_search(kind) {
        Ok(true)
    } else if kind_is_callable(kind) {
        Ok(false)
    } else {
        Err(fail_choice(kind))
    }
}

/// The choice of a tool is left out of the chat request, because search options stand for it or
/// because no tool is left to choose.
pub open spec fn omits_choice(
    choice: JsonV,
    has_chat_tools: bool,
    search_seen: bool,
    search_enabled: bool,
) -> Result<bool, FailureV> {
    if !search_seen {
        targets_search(choice)
    } else if !has_chat_tools {
        if choice == JsonV::Str("auto"@) || choice == JsonV::Str("none"@) || choice == JsonV::Str(
            "required"@,
        ) {
            Ok(true)
        } else {
            targets_search(choice)
        }
    } else if search_enabled {
        targets_search(choice)
    } else {
        Ok(false)
    }
}

/// Whether the choice of a tool is left out of the chat request.
pub fn should_omit_chat_tool_choice_for_web_search(
    choice: &Json,
    has_chat_tools: bool,
    search_seen: bool,
    search_enabled: bool,
) -> (r: Result<bool, Failure>)
    ensures
        bool_result(r) == omits_choice(choice@, has_chat_tools, search_seen, search_enabled),
{
    if !search_seen {
        return responses_tool_choice_targets_web_search(choice);
    }
    if !has_chat_tools {
        if let Some(s) = choice.as_str() {
            if str_eq(s, "auto") || str_eq(s, "none") || str_eq(s, "required") {
                return Ok(true);
            }
        }
        return responses_tool_choice_targets_web_search(choice);
    }
    if search_enabled {
        responses_tool_choice_targets_web_search(choice)
    } else {
        Ok(false)
    }
}

/// The parts of a chat request that are converted one by one: the messages of the input, the
/// tools, and what the request chooses among them.
pub struct ChatConversions {
    pub messages: Vec<Json>,
    pub tools: Option<Json>,
    pub web_search_options: Option<Json>,
    pub web_search_tool_seen: bool,
    pub response_format: Result<Json, Failure>,
    pub tool_choice: Result<Json, Failure>,
    pub function_call: Result<Json, Failure>,
}

pub struct ConversionsV {
    pub messages: Seq<JsonV>,
    pub tools: Option<JsonV>,
    pub web_search_options: Option<JsonV>,
    pub web_search_tool_seen: bool,
    pub response_format: Result<JsonV, FailureV>,
    pub tool_choice: Result<JsonV, FailureV>,
    pub function_call: Result<JsonV, FailureV>,
}

impl View for ChatConversions {
    type V = ConversionsV;

    open spec fn view(&self) -> ConversionsV {
        ConversionsV {
            messages: views(self.messages@),
            tools: own_view(self.tools),
            web_search_options: own_view(self.web_search_options),
            web_search_tool_seen: self.web_search_tool_seen,
            response_format: json_result(self.response_format),
            tool_choice: json_result(self.tool_choice),
            function_call: json_result(self.function_call),
        }
    }
}

/// A member that is a number or a text is copied.
pub open spec fn with_scalar(chat: JsonV, source: JsonV, from: Seq<char>, to: Seq<char>) -> JsonV {
    match source.get(from) {
        Some(JsonV::Unsigned(n)) => chat.with(to, JsonV::Unsigned(n)),
        Some(JsonV::Negative(n)) => chat.with(to, JsonV::Negative(n)),
        Some(JsonV::Float(n)) => chat.with(to, JsonV::Float(n)),
        Some(JsonV::Str(s)) => chat.with(to, JsonV::Str(s)),
        _ => chat,
    }
}

/// A member that is not null is copied.
pub open spec fn with_member(chat: JsonV, source: JsonV, key: Seq<char>) -> JsonV {
    match source.get(key) {
        None => chat,
        Some(JsonV::Null) => chat,
        Some(v) => chat.with(key, v),
    }
}

/// Copies a member that is a number or a text.
pub fn copy_number_or_string_field(source: &Json, target: &mut Json, from: &str, to: &str)
    ensures
        final(target)@ == with_scalar(old(target)@, source@, from@, to@),
{
    if let Some(v) = source.get(from) {
        let plain = match v {
            Json::Unsigned(_) => true,
            Json::Negative(_) => true,
            Json::Float(_) => true,
            Json::Str(_) => true,
            _ => false,
        };
        if plain {
            target.insert(to, v.clone_json());
        }
    }
}

/// Copies a member that is not null.
pub fn copy_json_field(source: &Json, target: &mut Json, key: &str)
    ensures
        final(target)@ == with_member(old(target)@, source@, key@),
{
    if let Some(v) = source.get(key) {
        if !v.is_null() {
            target.insert(key, v.clone_json());
        }
    }
}

/// The plain settings of a request.
pub open spec fn chat_settings(start: JsonV, body: JsonV) -> JsonV {
    let a = with_scalar(start, body, "temperature"@, "temperature"@);
    let b = with_scalar(a, body, "top_p"@, "top_p"@);
    let c = with_scalar(b, body, "presence_penalty"@, "presence_penalty"@);
    let d = with_scalar(c, body, "frequency_penalty"@, "frequency_penalty"@);
    let e = with_scalar(d, body, "reasoning_effort"@, "reasoning_effort"@);
    let f = match body.get_object("reasoning"@) {
        Some(reasoning) => if e.has("reasoning_effort"@) {
            e
        } else {
            with_scalar(e, reasoning, "effort"@, "reasoning_effort"@)
        },
        None => e,
    };
    let g = with_scalar(f, body, "user"@, "user"@);
    let h = with_member(g, body, "stop"@);
    let i = with_member(h, body, "seed"@);
    let j = with_member(i, body, "logit_bias"@);
    let k = with_member(j, body, "logprobs"@);
    with_member(k, body, "top_logprobs"@)
}

fn add_chat_settings(chat: &mut Json, body: &Json)
    ensures
        final(chat)@ == chat_settings(old(chat)@, body@),
{
    copy_number_or_string_field(body, chat, "temperature", "temperature");
    copy_number_or_string_field(body, chat, "top_p", "top_p");
    copy_number_or_string_field(body, chat, "presence_penalty", "presence_penalty");
    copy_number_or_string_field(body, chat, "frequency_penalty", "frequency_penalty");
    copy_number_or_string_field(body, chat, "reasoning_effort", "reasoning_effort");
    if let Some(reasoning) = body.get_object("reasoning") {
        if !chat.has("reasoning_effort") {
            copy_number_or_string_field(reasoning, chat, "effort", "reasoning_effort");
        }
    }
    copy_number_or_string_field(body, chat, "user", "user");
    copy_json_field(body, chat, "stop");
    copy_json_field(body, chat, "seed");
    copy_json_field(body, chat, "logit_bias");
    copy_json_field(body, chat, "logprobs");
    copy_json_field(body, chat, "top_logprobs");
}

/// The messages of a chat request: the instructions first.
pub open spec fn chat_messages(body: JsonV, messages: Seq<JsonV>) -> Seq<JsonV> {
    match body.get_text("instructions"@) {
        Some(text) => seq![
            JsonV::obj().with("role"@, JsonV::Str("system"@)).with("content"@, JsonV::Str(text)),
        ] + messages,
        None => messages,
    }
}

pub open spec fn streams(body: JsonV) -> bool {
    body.get_bool("stream"@) == Some(true)
}

/// The chat request up to its settings. A stream is asked for its usage.
pub open spec fn chat_start(body: JsonV, model: Seq<char>, messages: Seq<JsonV>) -> JsonV {
    let start = JsonV::obj().with("model"@, JsonV::Str(model)).with(
        "messages"@,
        JsonV::Array(messages),
    ).with("stream"@, JsonV::Bool(streams(body)));
    let set = chat_settings(start, body);
    if streams(body) {
        let options = match body.get_object("stream_options"@) {
            Some(o) => o,
            None => JsonV::obj(),
        };
        set.with("stream_options"@, options.with("include_usage"@, JsonV::Bool(true)))
    } else {
        set
    }
}

/// The form of the answer that the request asks for.
pub open spec fn asks_format(body: JsonV) -> bool {
    body.get2("text"@, "format"@) is Some
}

/// The chat request with its limit.
pub open spec fn with_limit(chat: JsonV, body: JsonV) -> JsonV {
    match body.get_either("max_output_tokens"@, "max_tokens"@) {
        Some(v) => chat.with("max_tokens"@, v),
        None => chat,
    }
}

/// The chat request with its search and its tools.
pub open spec fn with_search(chat: JsonV, body: JsonV, c: ConversionsV) -> Result<JsonV, FailureV> {
    match search_options(c.web_search_options, body.get("tool_choice"@), c.tools is Some) {
        Err(e) => Err(e),
        Ok(options) => {
            let searching = match options {
                Some(o) => chat.with("web_search_options"@, o),
                None => chat,
            };
            let checked = if options is Some {
                include_check(body.get("include"@))
            } else {
                Ok(())
            };
            match checked {
                Err(e) => Err(e),
                Ok(()) => Ok(
                    match c.tools {
                        Some(t) => searching.with("tools"@, t),
                        None => searching,
                    },
                ),
            }
        },
    }
}

/// The chat request with its choice of a tool.
pub open spec fn with_choice(chat: JsonV, body: JsonV, c: ConversionsV) -> Result<JsonV, FailureV> {
    match body.get("tool_choice"@) {
        None => Ok(chat),
        Some(choice) => match omits_choice(
            choice,
            c.tools is Some,
            c.web_search_tool_seen,
            chat.has("web_search_options"@),
        ) {
            Err(e) => Err(e),
            Ok(true) => Ok(chat),
            Ok(false) => match c.tool_choice {
                Err(e) => Err(e),
                Ok(v) => Ok(chat.with("tool_choice"@, v)),
            },
        },
    }
}

/// The chat request with the last of its settings.
pub open spec fn with_calls(chat: JsonV, body: JsonV, c: ConversionsV) -> Result<JsonV, FailureV> {
    match body.get("parallel_tool_calls"@) {
        Some(JsonV::Bool(b)) => with_function_call(
            chat.with("parallel_tool_calls"@, JsonV::Bool(b)),
            body,
            c,
        ),
        Some(_) => Err(FailureV::Text("parallel_tool_calls 必须是布尔值"@)),
        None => with_function_call(chat, body, c),
    }
}

pub open spec fn with_function_call(chat: JsonV, body: JsonV, c: ConversionsV) -> Result<
    JsonV,
    FailureV,
> {
    if body.has("function_call"@) {
        match c.function_call {
            Err(e) => Err(e),
            Ok(v) => Ok(chat.with("function_call"@, v)),
        }
    } else {
        Ok(chat)
    }
}

/// The chat request from the form of the answer on.
pub open spec fn chat_rest(chat: JsonV, body: JsonV, c: ConversionsV) -> Result<JsonV, FailureV> {
    match with_search(with_limit(chat, body), body, c) {
        Err(e) => Err(e),
        Ok(searched) => match with_choice(searched, body, c) {
            Err(e) => Err(e),
            Ok(chosen) => with_calls(chosen, body, c),
        },
    }
}

/// The model that a request names.
pub open spec fn named_model(body: JsonV) -> Option<Seq<char>> {
    match body.get_str("model"@) {
        Some(m) => if trim(m).len() > 0 {
            Some(trim(m))
        } else {
            None
        },
        None => None,
    }
}

/// A Responses request as a chat request, from its parts that were converted one by one.
pub open spec fn chat_request(body: JsonV, c: ConversionsV) -> Result<JsonV, FailureV> {
    let messages = chat_messages(body, c.messages);
    if !portable(body) {
        Err(not_portable())
    } else if !body.is_object() {
        Err(FailureV::Text("Responses 请求体必须是 JSON 对象"@))
    } else if named_model(body) is None {
        Err(FailureV::Text("缺少 model 字段"@))
    } else if messages.len() == 0 {
        Err(FailureV::Text("缺少可转换为 Chat Completions messages 的 input"@))
    } else if body.at("previous_response_id"@) != JsonV::Null {
        Err(
            FailureV::Text(
                "previous_response_id 依赖 Responses 服务端状态，不能无损转换为 Chat Completions"@,
            ),
        )
    } else {
        let start = chat_start(body, named_model(body)->0, messages);
        if asks_format(body) {
            match c.response_format {
                Err(e) => Err(e),
                Ok(f) => chat_rest(start.with("response_format"@, f), body, c),
            }
        } else {
            chat_rest(start, body, c)
        }
    }
}

fn finish_calls(
    chat: Json,
    body: &Json,
    function_call: Result<Json, Failure>,
    c: Ghost<ConversionsV>,
) -> (r: Result<Json, Failure>)
    requires
        c@.function_call == json_result(function_call),
    ensures
        json_result(r) == with_calls(chat@, body@, c@),
{
    let mut chat = chat;
    if let Some(v) = body.get("parallel_tool_calls") {
        match v.as_bool() {
            None => {
                return Err(fail("parallel_tool_calls 必须是布尔值"));
            },
            Some(b) => {
                chat.insert("parallel_tool_calls", Json::bool(b));
            },
        }
    }
    if body.has("function_call") {
        match function_call {
            Err(e) => {
                return Err(e);
            },
            Ok(v) => {
                chat.insert("function_call", v);
            },
        }
    }
    Ok(chat)
}

/// Makes the chat request of a Responses request from its parts that were converted one by one.
#[verifier::rlimit(40)]
#[verifier::spinoff_prover]
pub fn responses_to_chat_completions_request(body: &Json, conversions: ChatConversions) -> (r: Result<
    Json,
    Failure,
>)
    ensures
        json_result(r) == chat_request(body@, conversions@),
{
    let ghost c = conversions@;
    if let Err(e) = validate_portable_context(body) {
        return Err(e);
    }
    if !body.is_object() {
        return Err(fail("Responses 请求体必须是 JSON 对象"));
    }
    let model = match body.get_str("model") {
        None => {
            return Err(fail("缺少 model 字段"));
        },
        Some(m) => trimmed(m),
    };
    if model.as_str().is_empty() {
        return Err(fail("缺少 model 字段"));
    }
    let mut messages = conversions.messages;
    if let Some(text) = body.get_text("instructions") {
        let system = Json::obj().with("role", Json::str("system")).with("content", Json::str(text));
        let ghost before = messages@;
        messages.insert(0, system);
        proof {
            assert(views(messages@) =~= seq![system@] + views(before));
        }
    }
    if messages.len() == 0 {
        return Err(fail("缺少可转换为 Chat Completions messages 的 input"));
    }
    if let Some(v) = body.get("previous_response_id") {
        if !v.is_null() {
            return Err(
                fail("previous_response_id 依赖 Responses 服务端状态，不能无损转换为 Chat Completions"),
            );
        }
    }
    let stream = match body.get_bool("stream") {
        Some(b) => b,
        None => false,
    };
    let mut chat = Json::obj().with("model", Json::string(model)).with(
        "messages",
        Json::array(messages),
    ).with("stream", Json::bool(stream));
    add_chat_settings(&mut chat, body);
    if stream {
        let mut options = match body.get_object("stream_options") {
            Some(o) => o.clone_json(),
            None => Json::obj(),
        };
        options.insert("include_usage", Json::bool(true));
        chat.insert("stream_options", options);
    }
    if body.get2("text", "format").is_some() {
        match conversions.response_format {
            Err(e) => {
                return Err(e);
            },
            Ok(f) => {
                chat.insert("response_format", f);
            },
        }
    }
    if let Some(v) = body.get_either("max_output_tokens", "max_tokens") {
        chat.insert("max_tokens", v.clone_json());
    }
    let has_tools = conversions.tools.is_some();
    match chat_web_search_options_for_tool_choice(
        conversions.web_search_options.as_ref(),
        body.get("tool_choice"),
        has_tools,
    ) {
        Err(e) => {
            return Err(e);
        },
        Ok(None) => {},
        Ok(Some(options)) => {
            chat.insert("web_search_options", options);
            if let Err(e) = reject_unportable_chat_web_search_include(body.get("include")) {
                return Err(e);
            }
        },
    }
    if let Some(tools) = conversions.tools {
        chat.insert("tools", tools);
    }
    if let Some(choice) = body.get("tool_choice") {
        match should_omit_chat_tool_choice_for_web_search(
            choice,
            has_tools,
            conversions.web_search_tool_seen,
            chat.has("web_search_options"),
        ) {
            Err(e) => {
                return Err(e);
            },
            Ok(true) => {},
            Ok(false) => match conversions.tool_choice {
                Err(e) => {
                    return Err(e);
                },
                Ok(v) => {
                    chat.insert("tool_choice", v);
                },
            },
        }
    }
    finish_calls(chat, body, conversions.function_call, Ghost(c))
}

/// What a converted request needs of a Responses request: its input without the items that add
/// tools, and all its tools.
pub open spec fn chat_inputs(body: JsonV, opaque_types: Seq<Seq<char>>) -> Result<
    (Option<JsonV>, Option<JsonV>),
    FailureV,
> {
    match plain_input(body.get("input"@), opaque_types) {
        Err(e) => Err(e),
        Ok((input, added)) => match merged_tools(body.get("tools"@), added) {
            Err(e) => Err(e),
            Ok(tools) => Ok((input, tools)),
        },
    }
}

/// Reads what a converted request needs of a Responses request.
pub fn read_chat_inputs(body: &Json, opaque_types: &Vec<String>) -> (r: Result<
    (Option<Json>, Option<Json>),
    Failure,
>)
    ensures
        match r {
            Ok((input, tools)) => chat_inputs(body@, texts(opaque_types@)) == Ok::<
                (Option<JsonV>, Option<JsonV>),
                FailureV,
            >((own_view(input), own_view(tools))),
            Err(e) => chat_inputs(body@, texts(opaque_types@)) == Err::<
                (Option<JsonV>, Option<JsonV>),
                FailureV,
            >(e@),
        },
{
    match responses_input_without_additional_tools(body.get("input"), opaque_types) {
        Err(e) => Err(e),
        Ok((input, added)) => match merge_responses_tools(body.get("tools"), &added) {
            Err(e) => Err(e),
            Ok(tools) => Ok((input, tools)),
        },
    }
}

/// The members that make a request: what it asks, of which model, and how it is answered.
pub open spec fn is_core(key: Seq<char>) -> bool {
    key == "model"@ || key == "messages"@ || key == "stream"@
}

/// The members that make a request are the same in both.
pub open spec fn same_core(a: JsonV, b: JsonV) -> bool {
    forall|key: Seq<char>| #[trigger] is_core(key) ==> b.get(key) == a.get(key)
}

proof fn lemma_settings_are_not_core()
    ensures
        !is_core("temperature"@),
        !is_core("top_p"@),
        !is_core("presence_penalty"@),
        !is_core("frequency_penalty"@),
        !is_core("reasoning_effort"@),
        !is_core("user"@),
        !is_core("stop"@),
        !is_core("seed"@),
        !is_core("logit_bias"@),
        !is_core("logprobs"@),
        !is_core("top_logprobs"@),
        !is_core("stream_options"@),
        !is_core("response_format"@),
        !is_core("max_tokens"@),
        !is_core("web_search_options"@),
        !is_core("tools"@),
        !is_core("tool_choice"@),
        !is_core("parallel_tool_calls"@),
        !is_core("function_call"@),
{
    reveal_strlit("model");
    reveal_strlit("messages");
    reveal_strlit("stream");
    reveal_strlit("temperature");
    reveal_strlit("top_p");
    reveal_strlit("presence_penalty");
    reveal_strlit("frequency_penalty");
    reveal_strlit("reasoning_effort");
    reveal_strlit("user");
    reveal_strlit("stop");
    reveal_strlit("seed");
    reveal_strlit("logit_bias");
    reveal_strlit("logprobs");
    reveal_strlit("top_logprobs");
    reveal_strlit("stream_options");
    reveal_strlit("response_format");
    reveal_strlit("max_tokens");
    reveal_strlit("web_search_options");
    reveal_strlit("tools");
    reveal_strlit("tool_choice");
    reveal_strlit("parallel_tool_calls");
    reveal_strlit("function_call");
    assert("model"@.len() == 5);
    assert("messages"@.len() == 8);
    assert("stream"@.len() == 6);
    assert("temperature"@.len() == 11);
    assert("top_p"@.len() == 5);
    assert("presence_penalty"@.len() == 16);
    assert("frequency_penalty"@.len() == 17);
    assert("reasoning_effort"@.len() == 16);
    assert("user"@.len() == 4);
    assert("stop"@.len() == 4);
    assert("seed"@.len() == 4);
    assert("logit_bias"@.len() == 10);
    assert("logprobs"@.len() == 8);
    assert("top_logprobs"@.len() == 12);
    assert("stream_options"@.len() == 14);
    assert("response_format"@.len() == 15);
    assert("max_tokens"@.len() == 10);
    assert("web_search_options"@.len() == 18);
    assert("tools"@.len() == 5);
    assert("tool_choice"@.len() == 11);
    assert("parallel_tool_calls"@.len() == 19);
    assert("function_call"@.len() == 13);
    assert("model"@[0] == 'm' && "messages"@[0] == 'm');
    assert("top_p"@[0] == 't' && "tools"@[0] == 't' && "logprobs"@[0] == 'l');
}

proof fn lemma_settings_keep_core(start: JsonV, body: JsonV)
    ensures
        same_core(start, chat_settings(start, body)),
{
    lemma_settings_are_not_core();
    let a = with_scalar(start, body, "temperature"@, "temperature"@);
    assert(same_core(start, a));
    let b = with_scalar(a, body, "top_p"@, "top_p"@);
    assert(same_core(start, b));
    let c = with_scalar(b, body, "presence_penalty"@, "presence_penalty"@);
    assert(same_core(start, c));
    let d = with_scalar(c, body, "frequency_penalty"@, "frequency_penalty"@);
    assert(same_core(start, d));
    let e = with_scalar(d, body, "reasoning_effort"@, "reasoning_effort"@);
    assert(same_core(start, e));
    let f = match body.get_object("reasoning"@) {
        Some(reasoning) => if e.has("reasoning_effort"@) {
            e
        } else {
            with_scalar(e, reasoning, "effort"@, "reasoning_effort"@)
        },
        None => e,
    };
    assert(same_core(start, f));
    let g = with_scalar(f, body, "user"@, "user"@);
    assert(same_core(start, g));
    let h = with_member(g, body, "stop"@);
    assert(same_core(start, h));
    let i = with_member(h, body, "seed"@);
    assert(same_core(start, i));
    let j = with_member(i, body, "logit_bias"@);
    assert(same_core(start, j));
    let k = with_member(j, body, "logprobs"@);
    assert(same_core(start, k));
}

proof fn lemma_rest_keeps_core(chat: JsonV, body: JsonV, c: ConversionsV)
    ensures
        chat_rest(chat, body, c) matches Ok(done) ==> same_core(chat, done),
{
    lemma_settings_are_not_core();
    let limited = with_limit(chat, body);
    assert(same_core(chat, limited));
    if let Ok(searched) = with_search(limited, body, c) {
        assert(same_core(limited, searched));
        if let Ok(chosen) = with_choice(searched, body, c) {
            assert(same_core(searched, chosen));
            if let Ok(done) = with_calls(chosen, body, c) {
                assert(same_core(chosen, done));
            }
        }
    }
}

/// The chat request asks for the model that the request names, with its messages, and streams
/// exactly when the request does; a history that only its own route can read is refused.
pub proof fn a_chat_request_keeps_the_request(body: JsonV, c: ConversionsV)
    requires
        chat_request(body, c) is Ok,
    ensures
        portable(body),
        body.at("previous_response_id"@) == JsonV::Null,
        named_model(body) is Some,
        chat_messages(body, c.messages).len() > 0,
        ({
            let chat = chat_request(body, c)->Ok_0;
            &&& chat.get("model"@) == Some(JsonV::Str(named_model(body)->0))
            &&& chat.get("messages"@) == Some(JsonV::Array(chat_messages(body, c.messages)))
            &&& chat.get("stream"@) == Some(JsonV::Bool(streams(body)))
        }),
{
    let messages = chat_messages(body, c.messages);
    let first = JsonV::obj().with("model"@, JsonV::Str(named_model(body)->0)).with(
        "messages"@,
        JsonV::Array(messages),
    ).with("stream"@, JsonV::Bool(streams(body)));
    lemma_settings_are_not_core();
    reveal_strlit("model");
    reveal_strlit("messages");
    reveal_strlit("stream");
    assert("model"@.len() == 5 && "messages"@.len() == 8 && "stream"@.len() == 6);
    lemma_settings_keep_core(first, body);
    let start = chat_start(body, named_model(body)->0, messages);
    assert(same_core(first, start));
    let formed = match c.response_format {
        Ok(f) => start.with("response_format"@, f),
        Err(_) => start,
    };
    assert(same_core(start, formed));
    lemma_rest_keeps_core(start, body, c);
    lemma_rest_keeps_core(formed, body, c);
    assert(is_core("model"@) && is_core("messages"@) && is_core("stream"@));
}

/// A number or a text, where the value is one.
pub open spec fn plain_setting(value: Option<JsonV>) -> Option<JsonV> {
    match value {
        Some(JsonV::Unsigned(_)) => value,
        Some(JsonV::Negative(_)) => value,
        Some(JsonV::Float(_)) => value,
        Some(JsonV::Str(_)) => value,
        _ => None,
    }
}

/// The value, unless it is null.
pub open spec fn set_value(value: Option<JsonV>) -> Option<JsonV> {
    match value {
        Some(JsonV::Null) => None,
        _ => value,
    }
}

/// A choice of a tool that picks the web search.
pub open spec fn picks_search(choice: Option<JsonV>) -> bool {
    choice matches Some(JsonV::Object(_)) && ((choice->0).get("type"@) == Some(
        JsonV::Str("web_search"@),
    ) || (choice->0).get("type"@) == Some(JsonV::Str("web_search_preview"@)))
}

spec fn key_rank(key: Seq<char>) -> int {
    key.len() * 1_000_000 + (key[0] as int) * 1000 + (key[2] as int)
}

proof fn lemma_key_ranks()
    ensures
        key_rank("model"@) == 5109100,
        key_rank("messages"@) == 8109115,
        key_rank("stream"@) == 6115114,
        key_rank("temperature"@) == 11116109,
        key_rank("top_p"@) == 5116112,
        key_rank("presence_penalty"@) == 16112101,
        key_rank("frequency_penalty"@) == 17102101,
        key_rank("reasoning_effort"@) == 16114097,
        key_rank("user"@) == 4117101,
        key_rank("stop"@) == 4115111,
        key_rank("seed"@) == 4115101,
        key_rank("logit_bias"@) == 10108103,
        key_rank("logprobs"@) == 8108103,
        key_rank("top_logprobs"@) == 12116112,
        key_rank("stream_options"@) == 14115114,
        key_rank("response_format"@) == 15114115,
        key_rank("max_tokens"@) == 10109120,
        key_rank("web_search_options"@) == 18119098,
        key_rank("tools"@) == 5116111,
        key_rank("tool_choice"@) == 11116111,
        key_rank("parallel_tool_calls"@) == 19112114,
        key_rank("function_call"@) == 13102110,
{
    reveal_strlit("model");
    reveal_strlit("messages");
    reveal_strlit("stream");
    reveal_strlit("temperature");
    reveal_strlit("top_p");
    reveal_strlit("presence_penalty");
    reveal_strlit("frequency_penalty");
    reveal_strlit("reasoning_effort");
    reveal_strlit("user");
    reveal_strlit("stop");
    reveal_strlit("seed");
    reveal_strlit("logit_bias");
    reveal_strlit("logprobs");
    reveal_strlit("top_logprobs");
    reveal_strlit("stream_options");
    reveal_strlit("response_format");
    reveal_strlit("max_tokens");
    reveal_strlit("web_search_options");
    reveal_strlit("tools");
    reveal_strlit("tool_choice");
    reveal_strlit("parallel_tool_calls");
    reveal_strlit("function_call");
}

/// Only one member of the object may have changed.
spec fn changed_at_most(a: JsonV, b: JsonV, key: Seq<char>) -> bool {
    a.is_object() && b.is_object() && forall|k: Seq<char>|
        k != key ==> #[trigger] b.get(k) == a.get(k)
}

proof fn lemma_scalar(chat: JsonV, source: JsonV, from: Seq<char>, to: Seq<char>)
    requires
        chat.is_object(),
    ensures
        changed_at_most(chat, with_scalar(chat, source, from, to), to),
        with_scalar(chat, source, from, to).get(to) == match plain_setting(source.get(from)) {
            Some(v) => Some(v),
            None => chat.get(to),
        },
{
}

proof fn lemma_member(chat: JsonV, source: JsonV, key: Seq<char>)
    requires
        chat.is_object(),
    ensures
        changed_at_most(chat, with_member(chat, source, key), key),
        with_member(chat, source, key).get(key) == match set_value(source.get(key)) {
            Some(v) => Some(v),
            None => chat.get(key),
        },
{
}

/// The plain settings of the request stand under their names in the chat request.
spec fn settings_kept(start: JsonV, body: JsonV, chat: JsonV) -> bool {
    &&& chat.is_object()
    &&& chat.get("temperature"@) == plain_setting(body.get("temperature"@))
    &&& chat.get("top_p"@) == plain_setting(body.get("top_p"@))
    &&& chat.get("presence_penalty"@) == plain_setting(body.get("presence_penalty"@))
    &&& chat.get("frequency_penalty"@) == plain_setting(body.get("frequency_penalty"@))
    &&& chat.get("user"@) == plain_setting(body.get("user"@))
    &&& chat.get("reasoning_effort"@) == match plain_setting(body.get("reasoning_effort"@)) {
        Some(v) => Some(v),
        None => plain_setting(body.get2("reasoning"@, "effort"@)),
    }
    &&& chat.get("stop"@) == set_value(body.get("stop"@))
    &&& chat.get("seed"@) == set_value(body.get("seed"@))
    &&& chat.get("logit_bias"@) == set_value(body.get("logit_bias"@))
    &&& chat.get("logprobs"@) == set_value(body.get("logprobs"@))
    &&& chat.get("top_logprobs"@) == set_value(body.get("top_logprobs"@))
    &&& forall|k: Seq<char>|
        !is_setting_name(k) ==> #[trigger] chat.get(k) == start.get(k)
}

spec fn is_setting_name(key: Seq<char>) -> bool {
    ||| key == "temperature"@
    ||| key == "top_p"@
    ||| key == "presence_penalty"@
    ||| key == "frequency_penalty"@
    ||| key == "reasoning_effort"@
    ||| key == "user"@
    ||| key == "stop"@
    ||| key == "seed"@
    ||| key == "logit_bias"@
    ||| key == "logprobs"@
    ||| key == "top_logprobs"@
}

#[verifier::rlimit(60)]
#[verifier::spinoff_prover]
proof fn lemma_settings_kept(start: JsonV, body: JsonV)
    requires
        start.is_object(),
        forall|k: Seq<char>| is_setting_name(k) ==> #[trigger] start.get(k) is None,
    ensures
        settings_kept(start, body, chat_settings(start, body)),
{
    lemma_key_ranks();
    let a = with_scalar(start, body, "temperature"@, "temperature"@);
    lemma_scalar(start, body, "temperature"@, "temperature"@);
    let b = with_scalar(a, body, "top_p"@, "top_p"@);
    lemma_scalar(a, body, "top_p"@, "top_p"@);
    let c = with_scalar(b, body, "presence_penalty"@, "presence_penalty"@);
    lemma_scalar(b, body, "presence_penalty"@, "presence_penalty"@);
    let d = with_scalar(c, body, "frequency_penalty"@, "frequency_penalty"@);
    lemma_scalar(c, body, "frequency_penalty"@, "frequency_penalty"@);
    let e = with_scalar(d, body, "reasoning_effort"@, "reasoning_effort"@);
    lemma_scalar(d, body, "reasoning_effort"@, "reasoning_effort"@);
    let f = match body.get_object("reasoning"@) {
        Some(reasoning) => if e.has("reasoning_effort"@) {
            e
        } else {
            with_scalar(e, reasoning, "effort"@, "reasoning_effort"@)
        },
        None => e,
    };
    if let Some(reasoning) = body.get_object("reasoning"@) {
        lemma_scalar(e, reasoning, "effort"@, "reasoning_effort"@);
    }
    assert(start.get("reasoning_effort"@) is None) by {
        assert(is_setting_name("reasoning_effort"@));
    }
    assert(changed_at_most(e, f, "reasoning_effort"@));
    let g = with_scalar(f, body, "user"@, "user"@);
    lemma_scalar(f, body, "user"@, "user"@);
    let h = with_member(g, body, "stop"@);
    lemma_member(g, body, "stop"@);
    let i = with_member(h, body, "seed"@);
    lemma_member(h, body, "seed"@);
    let j = with_member(i, body, "logit_bias"@);
    lemma_member(i, body, "logit_bias"@);
    let k = with_member(j, body, "logprobs"@);
    lemma_member(j, body, "logprobs"@);
    let l = with_member(k, body, "top_logprobs"@);
    lemma_member(k, body, "top_logprobs"@);
    assert(l == chat_settings(start, body));
    assert(is_setting_name("temperature"@) && start.get("temperature"@) is None);
    assert(is_setting_name("top_p"@) && start.get("top_p"@) is None);
    assert(is_setting_name("presence_penalty"@) && start.get("presence_penalty"@) is None);
    assert(is_setting_name("frequency_penalty"@) && start.get("frequency_penalty"@) is None);
    assert(is_setting_name("reasoning_effort"@) && start.get("reasoning_effort"@) is None);
    assert(is_setting_name("user"@) && start.get("user"@) is None);
    assert(is_setting_name("stop"@) && start.get("stop"@) is None);
    assert(is_setting_name("seed"@) && start.get("seed"@) is None);
    assert(is_setting_name("logit_bias"@) && start.get("logit_bias"@) is None);
    assert(is_setting_name("logprobs"@) && start.get("logprobs"@) is None);
    assert(is_setting_name("top_logprobs"@) && start.get("top_logprobs"@) is None);
    assert forall|q: Seq<char>| !is_setting_name(q) implies #[trigger] l.get(q) == start.get(q) by {
        assert(a.get(q) == start.get(q) && b.get(q) == a.get(q) && c.get(q) == b.get(q));
        assert(d.get(q) == c.get(q) && e.get(q) == d.get(q) && f.get(q) == e.get(q));
        assert(g.get(q) == f.get(q) && h.get(q) == g.get(q) && i.get(q) == h.get(q));
        assert(j.get(q) == i.get(q) && k.get(q) == j.get(q) && l.get(q) == k.get(q));
    }
}

/// A converted request asks for what the request asked for. It names the same model; the
/// instructions come before the messages, as a message of the system; it streams exactly when the
/// request does, and then asks for the usage. Each setting stands under its name in the chat
/// protocol. The converted tools are in it unchanged, and absent exactly where there are none.
#[verifier::rlimit(60)]
#[verifier::spinoff_prover]
pub proof fn a_converted_request_asks_for_the_same(body: JsonV, c: ConversionsV)
    requires
        chat_request(body, c) is Ok,
    ensures
        ({
            let chat = chat_request(body, c)->Ok_0;
            &&& chat.is_object()
            &&& body.get("model"@) is Some && (body.get("model"@)->0) is Str && chat.get("model"@)
                == Some(JsonV::Str(trim((body.get("model"@)->0)->Str_0)))
            &&& chat.get("messages"@) == Some(
                JsonV::Array(
                    match body.get("instructions"@) {
                        Some(JsonV::Str(text)) => if text.len() > 0 {
                            seq![
                                JsonV::obj().with("role"@, JsonV::Str("system"@)).with(
                                    "content"@,
                                    JsonV::Str(text),
                                ),
                            ] + c.messages
                        } else {
                            c.messages
                        },
                        _ => c.messages,
                    },
                ),
            )
            &&& chat.get("stream"@) == Some(
                JsonV::Bool(body.get("stream"@) == Some(JsonV::Bool(true))),
            )
            &&& chat.get("stream_options"@) == if body.get("stream"@) == Some(JsonV::Bool(true)) {
                Some(
                    (match body.get("stream_options"@) {
                        Some(JsonV::Object(m)) => JsonV::Object(m),
                        _ => JsonV::obj(),
                    }).with("include_usage"@, JsonV::Bool(true)),
                )
            } else {
                None
            }
            &&& chat.get("tools"@) == c.tools
            &&& chat.get("max_tokens"@) == match body.get("max_output_tokens"@) {
                Some(limit) => Some(limit),
                None => body.get("max_tokens"@),
            }
            &&& chat.get("parallel_tool_calls"@) == body.get("parallel_tool_calls"@)
            &&& chat.get("response_format"@) == if body.get2("text"@, "format"@) is Some {
                Some(c.response_format->Ok_0)
            } else {
                None
            }
            &&& chat.get("function_call"@) == if body.get("function_call"@) is Some {
                Some(c.function_call->Ok_0)
            } else {
                None
            }
            &&& chat.get("reasoning_effort"@) == match plain_setting(
                body.get("reasoning_effort"@),
            ) {
                Some(v) => Some(v),
                None => plain_setting(body.get2("reasoning"@, "effort"@)),
            }
            &&& chat.get("temperature"@) == plain_setting(body.get("temperature"@))
            &&& chat.get("top_p"@) == plain_setting(body.get("top_p"@))
            &&& chat.get("presence_penalty"@) == plain_setting(body.get("presence_penalty"@))
            &&& chat.get("frequency_penalty"@) == plain_setting(body.get("frequency_penalty"@))
            &&& chat.get("user"@) == plain_setting(body.get("user"@))
            &&& chat.get("stop"@) == set_value(body.get("stop"@))
            &&& chat.get("seed"@) == set_value(body.get("seed"@))
            &&& chat.get("logit_bias"@) == set_value(body.get("logit_bias"@))
            &&& chat.get("logprobs"@) == set_value(body.get("logprobs"@))
            &&& chat.get("top_logprobs"@) == set_value(body.get("top_logprobs"@))
            &&& chat.get("web_search_options"@) == if body.get("tool_choice"@) == Some(
                JsonV::Str("required"@),
            ) || picks_search(body.get("tool_choice"@)) {
                c.web_search_options
            } else {
                None
            }
            &&& chat.get("tool_choice"@) == match body.get("tool_choice"@) {
                None => None,
                Some(choice) => if picks_search(Some(choice)) || (c.web_search_tool_seen
                    && c.tools is None && choice is Str) {
                    None
                } else {
                    Some(c.tool_choice->Ok_0)
                },
            }
        }),
{
    lemma_key_ranks();
    let messages = chat_messages(body, c.messages);
    let first = JsonV::obj().with("model"@, JsonV::Str(named_model(body)->0)).with(
        "messages"@,
        JsonV::Array(messages),
    ).with("stream"@, JsonV::Bool(streams(body)));
    assert(first.get("model"@) == Some(JsonV::Str(named_model(body)->0)));
    assert(first.get("messages"@) == Some(JsonV::Array(messages)));
    assert(first.get("stream"@) == Some(JsonV::Bool(streams(body))));
    assert forall|k: Seq<char>|
        k != "model"@ && k != "messages"@ && k != "stream"@ implies #[trigger] first.get(
        k,
    ) is None by {}
    assert forall|k: Seq<char>| is_setting_name(k) implies #[trigger] first.get(k) is None by {
        assert(key_rank(k) != key_rank("model"@));
        assert(key_rank(k) != key_rank("messages"@));
        assert(key_rank(k) != key_rank("stream"@));
    }
    lemma_settings_kept(first, body);
    let set = chat_settings(first, body);
    let start = chat_start(body, named_model(body)->0, messages);
    assert(changed_at_most(set, start, "stream_options"@));
    lemma_names_apart();
    let formed = if asks_format(body) {
        start.with("response_format"@, c.response_format->Ok_0)
    } else {
        start
    };
    assert(changed_at_most(start, formed, "response_format"@));
    let limited = with_limit(formed, body);
    assert(changed_at_most(formed, limited, "max_tokens"@));
    let searched = with_search(limited, body, c)->Ok_0;
    let options = search_options(
        c.web_search_options,
        body.get("tool_choice"@),
        c.tools is Some,
    )->Ok_0;
    let searching = match options {
        Some(o) => limited.with("web_search_options"@, o),
        None => limited,
    };
    assert(changed_at_most(limited, searching, "web_search_options"@));
    assert(changed_at_most(searching, searched, "tools"@));
    let chosen = with_choice(searched, body, c)->Ok_0;
    assert(changed_at_most(searched, chosen, "tool_choice"@));
    let parallel = match body.get("parallel_tool_calls"@) {
        Some(JsonV::Bool(b)) => chosen.with("parallel_tool_calls"@, JsonV::Bool(b)),
        _ => chosen,
    };
    assert(changed_at_most(chosen, parallel, "parallel_tool_calls"@));
    let chat = chat_request(body, c)->Ok_0;
    assert(changed_at_most(parallel, chat, "function_call"@));
    assert(!is_setting_name("model"@) && !is_setting_name("messages"@) && !is_setting_name(
        "stream"@,
    ));
    assert(!is_setting_name("stream_options"@) && !is_setting_name("response_format"@));
    assert(!is_setting_name("max_tokens"@) && !is_setting_name("web_search_options"@));
    assert(!is_setting_name("tools"@) && !is_setting_name("tool_choice"@));
    assert(!is_setting_name("parallel_tool_calls"@) && !is_setting_name("function_call"@));
    assert(searching.get("web_search_options"@) == options);
    assert(searched.get("tools"@) == c.tools);
}

proof fn lemma_names_apart()
    ensures
        "web_search"@ != "function"@,
        "web_search"@ != "custom"@,
        "web_search"@ != "tool_search"@,
        "web_search_preview"@ != "function"@,
        "web_search_preview"@ != "custom"@,
        "web_search_preview"@ != "tool_search"@,
        "required"@ != "auto"@,
        "required"@ != "none"@,
{
    reveal_strlit("web_search");
    reveal_strlit("web_search_preview");
    reveal_strlit("function");
    reveal_strlit("custom");
    reveal_strlit("tool_search");
    reveal_strlit("required");
    reveal_strlit("auto");
    reveal_strlit("none");
    assert("web_search"@.len() == 10 && "web_search_preview"@.len() == 18);
    assert("function"@.len() == 8 && "custom"@.len() == 6 && "tool_search"@.len() == 11);
    assert("required"@.len() == 8 && "auto"@.len() == 4 && "none"@.len() == 4);
}

/// The members that a chat request may have.
pub open spec fn is_chat_member(key: Seq<char>) -> bool {
    ||| key == "model"@
    ||| key == "messages"@
    ||| key == "stream"@
    ||| key == "temperature"@
    ||| key == "top_p"@
    ||| key == "presence_penalty"@
    ||| key == "frequency_penalty"@
    ||| key == "reasoning_effort"@
    ||| key == "user"@
    ||| key == "stop"@
    ||| key == "seed"@
    ||| key == "logit_bias"@
    ||| key == "logprobs"@
    ||| key == "top_logprobs"@
    ||| key == "stream_options"@
    ||| key == "response_format"@
    ||| key == "max_tokens"@
    ||| key == "web_search_options"@
    ||| key == "tools"@
    ||| key == "tool_choice"@
    ||| key == "parallel_tool_calls"@
    ||| key == "function_call"@
}

/// A chat request holds nothing but what the chat protocol knows of the request: no other member of
/// the request gets into it.
#[verifier::rlimit(60)]
#[verifier::spinoff_prover]
pub proof fn nothing_else_is_asked_for(body: JsonV, c: ConversionsV, key: Seq<char>)
    requires
        chat_request(body, c) is Ok,
        !is_chat_member(key),
    ensures
        chat_request(body, c)->Ok_0.get(key) is None,
{
    let messages = chat_messages(body, c.messages);
    let first = JsonV::obj().with("model"@, JsonV::Str(named_model(body)->0)).with(
        "messages"@,
        JsonV::Array(messages),
    ).with("stream"@, JsonV::Bool(streams(body)));
    lemma_key_ranks();
    assert forall|k: Seq<char>| is_setting_name(k) implies #[trigger] first.get(k) is None by {
        assert(key_rank(k) != key_rank("model"@));
        assert(key_rank(k) != key_rank("messages"@));
        assert(key_rank(k) != key_rank("stream"@));
    }
    lemma_settings_kept(first, body);
    assert(first.get(key) is None);
    assert(!is_setting_name(key));
    assert(chat_settings(first, body).get(key) is None);
}

/// A document of a compaction.
pub open spec fn of_a_compaction(item: JsonV) -> bool {
    item.get("type"@) == Some(JsonV::Str("compaction"@)) || item.get("type"@) == Some(
        JsonV::Str("compaction_trigger"@),
    )
}

/// An item that is of no compaction, and whose content holds none.
pub open spec fn any_route_reads(item: JsonV) -> bool {
    !of_a_compaction(item) && match item.get("content"@) {
        None => true,
        Some(JsonV::Array(parts)) => forall|k: int|
            0 <= k < parts.len() ==> !of_a_compaction(#[trigger] parts[k]),
        Some(content) => !of_a_compaction(content),
    }
}

/// A request whose history every route can read, with a model and messages and without a response to
/// go on from, is converted: where the converted parts that it needs are there, where its flags are
/// flags, and where it does not ask for a web search.
#[verifier::rlimit(40)]
#[verifier::spinoff_prover]
pub proof fn a_plain_request_is_converted(body: JsonV, c: ConversionsV)
    requires
        body.is_object(),
        body.get("model"@) matches Some(JsonV::Str(m)) && trim(m).len() > 0,
        c.messages.len() > 0,
        body.get("previous_response_id"@) is None || body.get("previous_response_id"@) == Some(
            JsonV::Null,
        ),
        match body.get("input"@) {
            Some(JsonV::Array(items)) => forall|i: int|
                0 <= i < items.len() ==> any_route_reads(#[trigger] items[i]),
            Some(JsonV::Object(_)) => any_route_reads(body.get("input"@)->0),
            _ => true,
        },
        body.get2("text"@, "format"@) is Some ==> c.response_format is Ok,
        body.get("function_call"@) is Some ==> c.function_call is Ok,
        match body.get("parallel_tool_calls"@) {
            None => true,
            Some(JsonV::Bool(_)) => true,
            _ => false,
        },
        c.web_search_options is None,
        match body.get("tool_choice"@) {
            None => true,
            Some(JsonV::Str(s)) => (s == "auto"@ || s == "none"@ || s == "required"@)
                && c.tool_choice is Ok,
            Some(choice) => choice.is_object() && (choice.get("type"@) == Some(
                JsonV::Str("function"@),
            ) || choice.get("type"@) == Some(JsonV::Str("custom"@)) || choice.get("type"@) == Some(
                JsonV::Str("tool_search"@),
            )) && c.tool_choice is Ok,
        },
    ensures
        chat_request(body, c) is Ok,
{
    lemma_names_apart();
    lemma_key_ranks();
    assert(portable(body));
}

/// A request that goes on from an earlier response, or whose history holds a compaction, cannot be
/// converted: nothing of it would be left to the upstream.
pub proof fn what_only_its_route_knows_is_not_converted(body: JsonV, c: ConversionsV, items: Seq<JsonV>, i: int)
    requires
        (body.get("previous_response_id"@) is Some && body.get("previous_response_id"@) != Some(
            JsonV::Null,
        )) || (body.get("input"@) == Some(JsonV::Array(items)) && 0 <= i < items.len()
            && of_a_compaction(items[i])),
    ensures
        chat_request(body, c) is Err,
{
    if body.get("input"@) == Some(JsonV::Array(items)) && 0 <= i < items.len() {
        assert(input_items(body)[i] == items[i]);
    }
}

/// The items that are kept of an input, in order, and the tools in it.
pub open spec fn split_of(items: Seq<JsonV>, opaque_types: Seq<Seq<char>>) -> Result<
    (Option<JsonV>, Seq<JsonV>),
    FailureV,
> {
    plain_input(Some(JsonV::Array(items)), opaque_types)
}

/// An input of one item after the other is split item by item: what is kept of two halves, and the
/// tools in them, stand one after the other.
pub proof fn an_input_is_split_item_by_item(
    first: Seq<JsonV>,
    second: Seq<JsonV>,
    opaque_types: Seq<Seq<char>>,
)
    ensures
        match (split_of(first, opaque_types), split_of(second, opaque_types)) {
            (Ok((Some(JsonV::Array(a)), x)), Ok((Some(JsonV::Array(b)), y))) => split_of(
                first + second,
                opaque_types,
            ) == Ok::<(Option<JsonV>, Seq<JsonV>), FailureV>(
                (Some(JsonV::Array(a + b)), x + y),
            ),
            _ => split_of(first + second, opaque_types) is Err,
        },
{
    lemma_split_halves(first, second, opaque_types, second.len() as int);
    lemma_split_prefix(first, second, opaque_types, first.len() as int);
    assert((first + second).len() == first.len() + second.len());
    if split_steps(first, opaque_types, first.len() as int) is Err {
        lemma_split_error_stays(
            first + second,
            opaque_types,
            first.len() as int,
            (first + second).len() as int,
        );
    }
}

proof fn lemma_split_prefix(
    first: Seq<JsonV>,
    second: Seq<JsonV>,
    opaque_types: Seq<Seq<char>>,
    n: int,
)
    requires
        0 <= n <= first.len(),
    ensures
        split_steps(first + second, opaque_types, n) == split_steps(first, opaque_types, n),
    decreases n,
{
    if n > 0 {
        lemma_split_prefix(first, second, opaque_types, n - 1);
        assert((first + second)[n - 1] == first[n - 1]);
    }
}

proof fn lemma_split_halves(
    first: Seq<JsonV>,
    second: Seq<JsonV>,
    opaque_types: Seq<Seq<char>>,
    n: int,
)
    requires
        0 <= n <= second.len(),
    ensures
        split_steps(first, opaque_types, first.len() as int) is Ok ==> match split_steps(
            second,
            opaque_types,
            n,
        ) {
            Ok(b) => {
                let a = split_steps(first, opaque_types, first.len() as int)->Ok_0;
                split_steps(first + second, opaque_types, first.len() + n) == Ok::<
                    SplitInput,
                    FailureV,
                >(SplitInput { items: a.items + b.items, tools: a.tools + b.tools })
            },
            Err(_) => split_steps(first + second, opaque_types, first.len() + n) is Err,
        },
    decreases n,
{
    if n == 0 {
        lemma_split_prefix(first, second, opaque_types, first.len() as int);
        if let Ok(a) = split_steps(first, opaque_types, first.len() as int) {
            assert(a.items + Seq::<JsonV>::empty() =~= a.items);
            assert(a.tools + Seq::<JsonV>::empty() =~= a.tools);
        }
    } else {
        lemma_split_halves(first, second, opaque_types, n - 1);
        let all = first + second;
        let m = first.len() + n;
        assert(all[m - 1] == second[n - 1]);
        let item = second[n - 1];
        if split_steps(first, opaque_types, first.len() as int) is Ok && split_steps(
            second,
            opaque_types,
            n - 1,
        ) is Ok {
            let a = split_steps(first, opaque_types, first.len() as int)->Ok_0;
            let b = split_steps(second, opaque_types, n - 1)->Ok_0;
            if let Ok(after) = split_step(b, item, opaque_types) {
                let whole = split_step(
                    SplitInput { items: a.items + b.items, tools: a.tools + b.tools },
                    item,
                    opaque_types,
                )->Ok_0;
                assert(whole.items =~= a.items + after.items);
                assert(whole.tools =~= a.tools + after.tools);
            }
        }
    }
}

/// What one item of an input comes to. An ordinary item is kept. An item that adds tools gives its
/// tools and is not kept. The result of a search that the client made gives its tools and is kept.
pub proof fn an_item_is_kept_or_gives_its_tools(
    item: JsonV,
    tools: Seq<JsonV>,
    opaque_types: Seq<Seq<char>>,
)
    ensures
        !(item.get("type"@) matches Some(JsonV::Str(t)) && (t == "additional_tools"@ || t
            == "tool_search_output"@ || opaque_types.contains(t))) ==> split_of(
            seq![item],
            opaque_types,
        ) == Ok::<(Option<JsonV>, Seq<JsonV>), FailureV>(
            (Some(JsonV::Array(seq![item])), Seq::empty()),
        ),
        item.get("type"@) == Some(JsonV::Str("additional_tools"@)) && item.get("role"@) == Some(
            JsonV::Str("developer"@),
        ) && item.get("tools"@) == Some(JsonV::Array(tools)) ==> split_of(seq![item], opaque_types)
            == Ok::<(Option<JsonV>, Seq<JsonV>), FailureV>(
            (Some(JsonV::Array(Seq::empty())), tools),
        ),
        item.get("type"@) == Some(JsonV::Str("tool_search_output"@)) && item.get("execution"@)
            == Some(JsonV::Str("client"@)) && item.get("tools"@) == Some(JsonV::Array(tools))
            && !opaque_types.contains("tool_search_output"@) ==> split_of(seq![item], opaque_types)
            == Ok::<(Option<JsonV>, Seq<JsonV>), FailureV>(
            (Some(JsonV::Array(seq![item])), tools),
        ),
{
    reveal_strlit("additional_tools");
    reveal_strlit("tool_search_output");
    assert("additional_tools"@.len() == 16 && "tool_search_output"@.len() == 18);
    reveal_with_fuel(split_steps, 2);
    let none = Seq::<JsonV>::empty();
    assert(none + none =~= none);
    assert(none + tools =~= tools);
    assert(none.push(item) =~= seq![item]);
}

/// Every tool that the request declares or its input adds is among the tools of the request, and
/// nothing else is.
pub proof fn no_tool_is_lost(configured: Seq<JsonV>, additional: Seq<JsonV>)
    requires
        merged_tools(Some(JsonV::Array(configured)), additional) is Ok,
    ensures
        merged_tools(Some(JsonV::Array(configured)), additional) matches Ok(
            Some(JsonV::Array(all)),
        ) && (forall|i: int|
            0 <= i < configured.len() ==> stands_in(all, #[trigger] configured[i])) && (forall|
            i: int,
        |
            0 <= i < additional.len() ==> stands_in(all, #[trigger] additional[i])) && (forall|
            j: int,
        |
            0 <= j < all.len() ==> configured.contains(#[trigger] all[j]) || additional.contains(
                all[j],
            )),
{
    let start = configured_tools(configured, configured.len() as int);
    lemma_configured_stand(configured, configured.len() as int);
    lemma_additional_stand(start, additional, additional.len() as int);
    let all = additional_tools(start, additional, additional.len() as int)->Ok_0;
    assert forall|i: int| 0 <= i < configured.len() implies stands_in(
        all,
        #[trigger] configured[i],
    ) by {
        assert(stands_in(start, configured[i]));
        let j = choose|j: int|
            0 <= j < start.len() && (start[j] == configured[i] || same_document(
                #[trigger] start[j],
                configured[i],
            ));
        assert(all[j] == start[j]);
    }
}

/// The tool, or one that is the same document, is in the list.
pub open spec fn stands_in(tools: Seq<JsonV>, tool: JsonV) -> bool {
    exists|j: int|
        0 <= j < tools.len() && (tools[j] == tool || same_document(#[trigger] tools[j], tool))
}

proof fn lemma_first_tool_is_there(tools: Seq<JsonV>, identity: Seq<char>)
    ensures
        first_tool(tools, identity) matches Some(t) ==> tools.contains(t),
    decreases tools.len(),
{
    if tools.len() > 0 && tool_identity(tools[0]) != Some(identity) {
        let rest = tools.subrange(1, tools.len() as int);
        lemma_first_tool_is_there(rest, identity);
        if let Some(t) = first_tool(rest, identity) {
            let j = choose|j: int| 0 <= j < rest.len() && rest[j] == t;
            assert(tools[j + 1] == t);
        }
    }
}

proof fn lemma_configured_stand(tools: Seq<JsonV>, n: int)
    requires
        0 <= n <= tools.len(),
    ensures
        forall|i: int|
            0 <= i < n ==> stands_in(configured_tools(tools, n), #[trigger] tools[i]),
        forall|j: int|
            0 <= j < configured_tools(tools, n).len() ==> tools.contains(
                #[trigger] configured_tools(tools, n)[j],
            ),
    decreases n,
{
    if n > 0 {
        lemma_configured_stand(tools, n - 1);
        let before = configured_tools(tools, n - 1);
        let after = configured_tools(tools, n);
        let tool = tools[n - 1];
        if let Some(id) = tool_identity(tool) {
            lemma_first_tool_is_there(before, id);
            if let Some(known) = first_tool(before, id) {
                let j = choose|j: int| 0 <= j < before.len() && before[j] == known;
                assert(after[j] == before[j]);
            }
        }
        assert(stands_in(after, tool)) by {
            if after.len() > before.len() {
                assert(after[before.len() as int] == tool);
            }
        }
        assert forall|i: int| 0 <= i < n implies stands_in(after, #[trigger] tools[i]) by {
            if i < n - 1 {
                assert(stands_in(before, tools[i]));
                let j = choose|j: int|
                    0 <= j < before.len() && (before[j] == tools[i] || same_document(
                        #[trigger] before[j],
                        tools[i],
                    ));
                assert(after[j] == before[j]);
            }
        }
        assert forall|j: int| 0 <= j < after.len() implies tools.contains(
            #[trigger] after[j],
        ) by {
            if j < before.len() {
                assert(after[j] == before[j]);
            }
        }
    }
}

proof fn lemma_additional_stand(merged: Seq<JsonV>, tools: Seq<JsonV>, n: int)
    requires
        0 <= n <= tools.len(),
        additional_tools(merged, tools, n) is Ok,
    ensures
        ({
            let all = additional_tools(merged, tools, n)->Ok_0;
            &&& merged.len() <= all.len()
            &&& forall|j: int| 0 <= j < merged.len() ==> #[trigger] all[j] == merged[j]
            &&& forall|i: int| 0 <= i < n ==> stands_in(all, #[trigger] tools[i])
            &&& forall|j: int|
                merged.len() <= j < all.len() ==> tools.contains(#[trigger] all[j])
        }),
    decreases n,
{
    if n > 0 {
        lemma_additional_stand(merged, tools, n - 1);
        let before = additional_tools(merged, tools, n - 1)->Ok_0;
        let after = additional_tools(merged, tools, n)->Ok_0;
        let tool = tools[n - 1];
        if let Some(id) = tool_identity(tool) {
            lemma_first_tool_is_there(before, id);
            if let Some(known) = first_tool(before, id) {
                let j = choose|j: int| 0 <= j < before.len() && before[j] == known;
                assert(after[j] == before[j]);
            }
        }
        assert(stands_in(after, tool)) by {
            if after.len() > before.len() {
                assert(after[before.len() as int] == tool);
            }
        }
        assert forall|j: int| 0 <= j < merged.len() implies #[trigger] after[j] == merged[j] by {
            assert(before[j] == merged[j]);
        }
        assert forall|i: int| 0 <= i < n implies stands_in(after, #[trigger] tools[i]) by {
            if i < n - 1 {
                assert(stands_in(before, tools[i]));
                let j = choose|j: int|
                    0 <= j < before.len() && (before[j] == tools[i] || same_document(
                        #[trigger] before[j],
                        tools[i],
                    ));
                assert(after[j] == before[j]);
            }
        }
        assert forall|j: int| merged.len() <= j < after.len() implies tools.contains(
            #[trigger] after[j],
        ) by {
            if j < before.len() {
                assert(after[j] == before[j]);
            }
        }
    }
}

} // verus!
