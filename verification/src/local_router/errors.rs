//! Failures of the router, and what is told of an upstream's error response.
use crate::json::{Json, JsonV, opt_view, string_view, text_view, without_then_with};
use crate::text::{
    Sep, byte_len, cat2, cat3, cat4, cat5, chars_of, contains_text, cut_at, cut_at_first,
    decimal_text, digits, eq_ignoring_case, find_sep, has_part, head, is_white, join, joined,
    lacks, lower, lower_char, nonempty, replaced, same_ignoring_case, split, split_once,
    split_words, stands_at, str_eq, text_byte_len, text_head, text_of, text_without_controls,
    texts, trim, trim_of_clean, trimmed, with_replaced, without_controls, words,
};
use vstd::prelude::*;

verus! {

/// Why a conversion failed.
#[derive(Debug)]
pub enum Failure {
    /// The upstream says that the conversation no longer fits the model.
    ContextLength,
    /// Any other reason, in words.
    Text(String),
}

/// What a failure is.
pub enum FailureV {
    ContextLength,
    Text(Seq<char>),
}

impl View for Failure {
    type V = FailureV;

    open spec fn view(&self) -> FailureV {
        match self {
            Failure::ContextLength => FailureV::ContextLength,
            Failure::Text(words) => FailureV::Text(words@),
        }
    }
}

/// The view of a result without a value.
pub open spec fn done_view(r: Result<(), Failure>) -> Result<(), FailureV> {
    match r {
        Ok(()) => Ok(()),
        Err(e) => Err(e@),
    }
}

/// The view of a result with a document.
pub open spec fn json_result(r: Result<Json, Failure>) -> Result<JsonV, FailureV> {
    match r {
        Ok(v) => Ok(v@),
        Err(e) => Err(e@),
    }
}

/// A failure with fixed words.
pub fn fail(words: &str) -> (r: Failure)
    ensures
        r@ == FailureV::Text(words@),
{
    Failure::Text(words.to_owned())
}

/// A failure whose words end in a value.
pub fn fail_with(words: &str, value: &str) -> (r: Failure)
    ensures
        r@ == FailureV::Text(words@ + value@),
{
    Failure::Text(cat2(words, value))
}

/// The first candidate that is a string, trimmed, where that leaves something.
pub open spec fn first_string(candidates: Seq<Option<JsonV>>) -> Option<Seq<char>>
    decreases candidates.len(),
{
    if candidates.len() == 0 {
        None
    } else {
        match candidates[0] {
            Some(JsonV::Str(s)) => if trim(s).len() > 0 {
                Some(trim(s))
            } else {
                None
            },
            _ => first_string(candidates.subrange(1, candidates.len() as int)),
        }
    }
}

/// The views of a list of optional borrowed values.
pub open spec fn opt_views(candidates: Seq<Option<&Json>>) -> Seq<Option<JsonV>> {
    Seq::new(candidates.len(), |i: int| opt_view(candidates[i]))
}

/// The first candidate that is a string, trimmed, where that leaves something.
pub fn first_string_at(candidates: &Vec<Option<&Json>>) -> (r: Option<String>)
    ensures
        string_view(r) == first_string(opt_views(candidates@)),
{
    let mut i: usize = 0;
    let ghost all = opt_views(candidates@);
    proof {
        assert(all.subrange(0, all.len() as int) =~= all);
    }
    while i < candidates.len()
        invariant
            i <= candidates.len(),
            all == opt_views(candidates@),
            first_string(all) == first_string(all.subrange(i as int, all.len() as int)),
        decreases candidates.len() - i,
    {
        proof {
            let rest = all.subrange(i as int, all.len() as int);
            assert(rest[0] == opt_view(candidates@[i as int]));
            assert(rest.subrange(1, rest.len() as int) =~= all.subrange(i + 1, all.len() as int));
        }
        if let Some(value) = candidates[i] {
            if let Some(s) = value.as_str() {
                let t = trimmed(s);
                return if t.as_str().is_empty() {
                    None
                } else {
                    Some(t)
                };
            }
        }
        i = i + 1;
    }
    None
}

/// The places of an error's words, its type and its code in a document, in order.
pub open spec fn error_message_places(v: JsonV) -> Seq<Option<JsonV>> {
    seq![
        v.get3("response"@, "error"@, "message"@),
        v.get3("error"@, "error"@, "message"@),
        v.get2("error"@, "message"@),
        v.get("message"@),
        v.get("detail"@),
        v.get("error"@),
    ]
}

pub open spec fn error_type_places(v: JsonV) -> Seq<Option<JsonV>> {
    seq![
        v.get3("response"@, "error"@, "type"@),
        v.get3("error"@, "error"@, "type"@),
        v.get2("error"@, "type"@),
    ]
}

pub open spec fn error_code_places(v: JsonV) -> Seq<Option<JsonV>> {
    seq![
        v.get3("response"@, "error"@, "code"@),
        v.get3("error"@, "error"@, "code"@),
        v.get2("error"@, "code"@),
        v.get("code"@),
    ]
}

pub fn error_message(value: &Json) -> (r: Option<String>)
    ensures
        string_view(r) == first_string(error_message_places(value@)),
{
    let mut places: Vec<Option<&Json>> = Vec::new();
    places.push(value.get3("response", "error", "message"));
    places.push(value.get3("error", "error", "message"));
    places.push(value.get2("error", "message"));
    places.push(value.get("message"));
    places.push(value.get("detail"));
    places.push(value.get("error"));
    proof {
        assert(opt_views(places@) =~= error_message_places(value@));
    }
    first_string_at(&places)
}

pub fn error_type(value: &Json) -> (r: Option<String>)
    ensures
        string_view(r) == first_string(error_type_places(value@)),
{
    let mut places: Vec<Option<&Json>> = Vec::new();
    places.push(value.get3("response", "error", "type"));
    places.push(value.get3("error", "error", "type"));
    places.push(value.get2("error", "type"));
    proof {
        assert(opt_views(places@) =~= error_type_places(value@));
    }
    first_string_at(&places)
}

pub fn error_code(value: &Json) -> (r: Option<String>)
    ensures
        string_view(r) == first_string(error_code_places(value@)),
{
    let mut places: Vec<Option<&Json>> = Vec::new();
    places.push(value.get3("response", "error", "code"));
    places.push(value.get3("error", "error", "code"));
    places.push(value.get2("error", "code"));
    places.push(value.get("code"));
    proof {
        assert(opt_views(places@) =~= error_code_places(value@));
    }
    first_string_at(&places)
}

/// The document reports that the conversation is too long for the model: by the code
/// `context_length_exceeded`, or by an error whose words say that the prompt is too long.
pub open spec fn context_length_error(v: JsonV) -> bool {
    ||| first_string(error_code_places(v)) == Some("context_length_exceeded"@)
    ||| v.has("error"@) && (first_string(error_message_places(v)) matches Some(words)
        && contains_text(words, "prompt is too long"@))
}

pub fn is_context_length_error(value: &Json) -> (r: bool)
    ensures
        r == context_length_error(value@),
{
    if let Some(code) = error_code(value) {
        if str_eq(code.as_str(), "context_length_exceeded") {
            return true;
        }
    }
    if !value.has("error") {
        return false;
    }
    match error_message(value) {
        Some(words) => has_part(words.as_str(), "prompt is too long"),
        None => false,
    }
}

/// Fails exactly when the document reports that the conversation is too long.
pub fn check_context_length_error(value: &Json) -> (r: Result<(), Failure>)
    ensures
        done_view(r) == if context_length_error(value@) {
            Err::<(), FailureV>(FailureV::ContextLength)
        } else {
            Ok(())
        },
{
    if is_context_length_error(value) {
        Err(Failure::ContextLength)
    } else {
        Ok(())
    }
}

/// A text with one secret masked: the whole of it, and the token of a bearer secret. Secrets of
/// fewer than four bytes stay.
pub open spec fn mask_one(s: Seq<char>, secret: Seq<char>) -> Seq<char> {
    let t = trim(secret);
    if byte_len(t) < 4 {
        s
    } else {
        let whole = replaced(s, t, "***"@);
        match cut_at(t, ' ') {
            Some((scheme, token)) => if same_ignoring_case(scheme, "bearer"@) && byte_len(
                trim(token),
            ) >= 4 {
                replaced(whole, trim(token), "***"@)
            } else {
                whole
            },
            None => whole,
        }
    }
}

/// A text with every secret masked, in turn.
pub open spec fn mask(s: Seq<char>, secrets: Seq<Seq<char>>) -> Seq<char>
    decreases secrets.len(),
{
    if secrets.len() == 0 {
        s
    } else {
        mask_one(mask(s, secrets.drop_last()), secrets.last())
    }
}

/// A masked text on one line, cut to a number of characters; an ellipsis says that more followed.
pub open spec fn sanitized(s: Seq<char>, secrets: Seq<Seq<char>>, max_chars: nat) -> Option<
    Seq<char>,
> {
    let line = joined(words(mask(s, secrets)), " "@);
    if line.len() == 0 {
        None
    } else if line.len() <= max_chars {
        Some(line)
    } else {
        Some(line.subrange(0, max_chars as int).push('…'))
    }
}

fn masked_one(s: String, secret: &str) -> (r: String)
    ensures
        r@ == mask_one(s@, secret@),
{
    let t = trimmed(secret);
    if text_byte_len(t.as_str()) < 4 {
        return s;
    }
    let whole = with_replaced(s.as_str(), t.as_str(), "***");
    match split_once(t.as_str(), ' ') {
        Some((scheme, token)) => {
            let token = trimmed(token.as_str());
            if eq_ignoring_case(scheme.as_str(), "bearer") && text_byte_len(token.as_str()) >= 4 {
                with_replaced(whole.as_str(), token.as_str(), "***")
            } else {
                whole
            }
        },
        None => whole,
    }
}

/// The text of an upstream error as it may be shown.
pub fn sanitize_upstream_error_text(value: &str, secrets: &Vec<String>, max_chars: usize) -> (r:
    Option<String>)
    ensures
        string_view(r) == sanitized(value@, texts(secrets@), max_chars as nat),
{
    let mut s = value.to_owned();
    let mut i: usize = 0;
    while i < secrets.len()
        invariant
            i <= secrets.len(),
            s@ == mask(value@, texts(secrets@).subrange(0, i as int)),
        decreases secrets.len() - i,
    {
        proof {
            let all = texts(secrets@);
            assert(all.subrange(0, i + 1).drop_last() =~= all.subrange(0, i as int));
        }
        s = masked_one(s, secrets[i].as_str());
        i = i + 1;
    }
    proof {
        assert(texts(secrets@).subrange(0, i as int) =~= texts(secrets@));
    }
    let line = join(&split_words(s.as_str()), " ");
    if line.as_str().is_empty() {
        return None;
    }
    let v = chars_of(line.as_str());
    if v.len() <= max_chars {
        Some(line)
    } else {
        let mut cut = text_of(&v, 0, max_chars);
        cut.push('…');
        Some(cut)
    }
}

/// What is shown is never empty and at most one character longer than asked for.
pub proof fn sanitized_is_bounded(s: Seq<char>, secrets: Seq<Seq<char>>, max_chars: nat)
    ensures
        sanitized(s, secrets, max_chars) matches Some(t) ==> 0 < t.len() <= max_chars + 1,
{
}

/// What an upstream's error response says.
#[derive(Debug)]
pub struct UpstreamErrorSummary {
    pub message: Option<String>,
    pub error_type: Option<String>,
    pub code: Option<String>,
}

/// The shown form of an optional text.
pub open spec fn shown(s: Option<Seq<char>>, secrets: Seq<Seq<char>>, max_chars: nat) -> Option<
    Seq<char>,
> {
    match s {
        Some(t) => sanitized(t, secrets, max_chars),
        None => None,
    }
}

fn show(s: Option<String>, secrets: &Vec<String>, max_chars: usize) -> (r: Option<String>)
    ensures
        string_view(r) == shown(string_view(s), texts(secrets@), max_chars as nat),
{
    match s {
        Some(t) => sanitize_upstream_error_text(t.as_str(), secrets, max_chars),
        None => None,
    }
}

/// Reads the words, the type and the code of an error response, with the secrets masked.
pub fn upstream_error_summary(value: &Json, secrets: &Vec<String>) -> (r: UpstreamErrorSummary)
    ensures
        string_view(r.message) == shown(
            first_string(error_message_places(value@)),
            texts(secrets@),
            512,
        ),
        string_view(r.error_type) == shown(
            first_string(error_type_places(value@)),
            texts(secrets@),
            128,
        ),
        string_view(r.code) == shown(
            first_string(error_code_places(value@)),
            texts(secrets@),
            128,
        ),
{
    UpstreamErrorSummary {
        message: show(error_message(value), secrets, 512),
        error_type: show(error_type(value), secrets, 128),
        code: show(error_code(value), secrets, 128),
    }
}

/// The type and the code of an error in words.
pub open spec fn error_attributes(error_type: Option<Seq<char>>, code: Option<Seq<char>>) -> Seq<
    char,
> {
    match (error_type, code) {
        (Some(t), Some(c)) => "类型："@ + t + "；代码："@ + c,
        (Some(t), None) => "类型："@ + t,
        (None, Some(c)) => "代码："@ + c,
        (None, None) => Seq::empty(),
    }
}

/// The whole of an error in words, or nothing where nothing is known of it.
pub open spec fn error_detail(
    message: Option<Seq<char>>,
    error_type: Option<Seq<char>>,
    code: Option<Seq<char>>,
) -> Option<Seq<char>> {
    let words = match message {
        Some(m) => m,
        None => Seq::empty(),
    };
    if error_type is None && code is None {
        if words.len() == 0 {
            None
        } else {
            Some(words)
        }
    } else if words.len() == 0 {
        Some(error_attributes(error_type, code))
    } else {
        Some(words + "（"@ + error_attributes(error_type, code) + "）"@)
    }
}

/// An error summary in words.
pub fn upstream_error_detail(summary: &UpstreamErrorSummary) -> (r: Option<String>)
    ensures
        string_view(r) == error_detail(
            string_view(summary.message),
            string_view(summary.error_type),
            string_view(summary.code),
        ),
{
    let words = match &summary.message {
        Some(m) => m.clone(),
        None => String::new(),
    };
    let attributes = match (&summary.error_type, &summary.code) {
        (Some(t), Some(c)) => cat4("类型：", t.as_str(), "；代码：", c.as_str()),
        (Some(t), None) => cat2("类型：", t.as_str()),
        (None, Some(c)) => cat2("代码：", c.as_str()),
        (None, None) => {
            return if words.as_str().is_empty() {
                None
            } else {
                Some(words)
            };
        },
    };
    if words.as_str().is_empty() {
        Some(attributes)
    } else {
        Some(cat4(words.as_str(), "（", attributes.as_str(), "）"))
    }
}

/// An upstream's request id as it is shown: trimmed, without control characters, at most 128
/// characters of it.
pub open spec fn bounded_id(s: Seq<char>) -> Option<Seq<char>> {
    let t = head(without_controls(trim(s)), 128);
    if t.len() == 0 {
        None
    } else {
        Some(t)
    }
}

pub fn bounded_upstream_request_id(value: &str) -> (r: Option<String>)
    ensures
        string_view(r) == bounded_id(value@),
{
    let t = text_head(text_without_controls(trimmed(value).as_str()).as_str(), 128);
    if t.as_str().is_empty() {
        None
    } else {
        Some(t)
    }
}

/// What the user is told of an upstream's error response.
pub open spec fn http_error_words(
    route_name: Seq<char>,
    model: Seq<char>,
    status: u16,
    detail: Option<Seq<char>>,
    request_id: Option<Seq<char>>,
) -> Seq<char> {
    let start = "Codey 线路「"@ + route_name + "」请求模型 "@ + model + " 时，上游返回 HTTP "@ + digits(
        status as nat,
    );
    let middle = match detail {
        Some(d) => start + ("："@ + d),
        None => start,
    };
    match request_id {
        Some(id) => middle + ("（上游请求 ID："@ + id + "）"@),
        None => middle,
    }
}

/// The words of an upstream's error response, for the user.
pub fn upstream_http_error_message(
    route_name: &str,
    model: &str,
    status: u16,
    detail: Option<&str>,
    request_id: Option<&str>,
) -> (r: String)
    ensures
        r@ == http_error_words(
            route_name@,
            model@,
            status,
            text_view(detail),
            text_view(request_id),
        ),
{
    let mut message = cat5(
        "Codey 线路「",
        route_name,
        "」请求模型 ",
        model,
        " 时，上游返回 HTTP ",
    );
    message = cat2(message.as_str(), decimal_text(status as u64).as_str());
    if let Some(d) = detail {
        message = cat2(message.as_str(), cat2("：", d).as_str());
    }
    if let Some(id) = request_id {
        message = cat2(message.as_str(), cat3("（上游请求 ID：", id, "）").as_str());
    }
    message
}

/// The words for an error event on an upstream socket.
pub open spec fn socket_error_words(
    route_name: Seq<char>,
    model: Seq<char>,
    detail: Option<Seq<char>>,
) -> Seq<char> {
    "Codey 线路「"@ + route_name + "」请求模型 "@ + model + " 时，Responses WebSocket 上游返回错误："@ + (
    match detail {
        Some(d) => d,
        None => "上游未提供具体错误信息"@,
    })
}

/// An error event with new words: in the error of its response, else in its own error, else in
/// itself.
pub open spec fn annotated(event: JsonV, words: Seq<char>) -> JsonV {
    let response = event.get_object("response"@);
    let nested = match response {
        Some(r) => r.get_object("error"@),
        None => None,
    };
    if nested is Some {
        event.with(
            "response"@,
            response->0.with("error"@, nested->0.with("message"@, JsonV::Str(words))),
        )
    } else if event.get_object("error"@) is Some {
        event.with(
            "error"@,
            event.get_object("error"@)->0.with("message"@, JsonV::Str(words)),
        )
    } else if event.is_object() {
        event.with("message"@, JsonV::Str(words))
    } else {
        event
    }
}

fn annotate(event: &mut Json, words: &str)
    ensures
        final(event)@ == annotated(old(event)@, words@),
{
    let nested = match event.get_object("response") {
        Some(r) => r.get_object("error").is_some(),
        None => false,
    };
    if nested {
        let ghost before = event@;
        if let Some(mut response) = event.remove("response") {
            let ghost inner = response@;
            if let Some(mut error) = response.remove("error") {
                let ghost deep = error@;
                error.insert("message", Json::str(words));
                response.insert("error", error);
                proof {
                    without_then_with(inner, "error"@, deep.with("message"@, JsonV::Str(words@)));
                }
            }
            let ghost changed = response@;
            event.insert("response", response);
            proof {
                without_then_with(before, "response"@, changed);
            }
        }
    } else if event.get_object("error").is_some() {
        let ghost before = event@;
        if let Some(mut error) = event.remove("error") {
            error.insert("message", Json::str(words));
            let ghost changed = error@;
            event.insert("error", error);
            proof {
                without_then_with(before, "error"@, changed);
            }
        }
    } else if event.is_object() {
        event.insert("message", Json::str(words));
    }
}

/// Puts the user's words into an error event of an upstream socket, and returns what is known of
/// the error.
pub fn annotate_upstream_websocket_failure(
    event: &mut Json,
    secrets: &Vec<String>,
    route_name: &str,
    model: &str,
) -> (r: Option<String>)
    ensures
        string_view(r) == socket_error_detail(old(event)@, texts(secrets@)),
        final(event)@ == annotated(
            old(event)@,
            socket_error_words(
                route_name@,
                model@,
                socket_error_detail(old(event)@, texts(secrets@)),
            ),
        ),
{
    let summary = upstream_error_summary(event, secrets);
    let detail = upstream_error_detail(&summary);
    let words = match &detail {
        Some(d) => d.clone(),
        None => "上游未提供具体错误信息".to_owned(),
    };
    let start = cat5(
        "Codey 线路「",
        route_name,
        "」请求模型 ",
        model,
        " 时，Responses WebSocket 上游返回错误：",
    );
    annotate(event, cat2(start.as_str(), words.as_str()).as_str());
    detail
}

/// What is known of the error in an event.
pub open spec fn socket_error_detail(event: JsonV, secrets: Seq<Seq<char>>) -> Option<Seq<char>> {
    error_detail(
        shown(first_string(error_message_places(event)), secrets, 512),
        shown(first_string(error_type_places(event)), secrets, 128),
        shown(first_string(error_code_places(event)), secrets, 128),
    )
}

proof fn lemma_start_before_stars(s: Seq<char>, part: Seq<char>, k: int)
    requires
        0 <= k <= replaced(s, part, "***"@).len(),
        forall|j: int| 0 <= j < k ==> #[trigger] replaced(s, part, "***"@)[j] != '*',
    ensures
        k <= s.len(),
        replaced(s, part, "***"@).subrange(0, k) == s.subrange(0, k),
    decreases s.len(),
{
    reveal_strlit("***");
    let r = replaced(s, part, "***"@);
    if part.len() == 0 || s.len() < part.len() {
    } else if s.subrange(0, part.len() as int) == part {
        if k > 0 {
            assert(r[0] == '*');
        }
        assert(r.subrange(0, 0) =~= s.subrange(0, 0));
    } else if k == 0 {
        assert(r.subrange(0, 0) =~= s.subrange(0, 0));
    } else {
        let rest = s.subrange(1, s.len() as int);
        let more = replaced(rest, part, "***"@);
        assert forall|j: int| 0 <= j < k - 1 implies #[trigger] more[j] != '*' by {
            assert(r[j + 1] == more[j]);
        }
        lemma_start_before_stars(rest, part, k - 1);
        assert forall|j: int| 0 <= j < k implies r[j] == s[j] by {
            if j > 0 {
                assert(r[j] == more[j - 1]);
                assert(more.subrange(0, k - 1)[j - 1] == rest.subrange(0, k - 1)[j - 1]);
            }
        }
        assert(r.subrange(0, k) =~= s.subrange(0, k));
    }
}

/// What stands in a masked text without a star stood in the text.
proof fn lemma_stood_before(s: Seq<char>, part: Seq<char>, q: Seq<char>, i: int)
    requires
        q.len() > 0,
        lacks(q, '*'),
        stands_at(replaced(s, part, "***"@), q, i),
    ensures
        contains_text(s, q),
    decreases s.len(),
{
    reveal_strlit("***");
    let r = replaced(s, part, "***"@);
    let n = q.len() as int;
    assert(r.subrange(i, i + n)[0] == r[i]);
    assert(q[0] != '*');
    if part.len() == 0 || s.len() < part.len() {
        assert(stands_at(s, q, i));
    } else {
        let cut = if s.subrange(0, part.len() as int) == part {
            part.len() as int
        } else {
            1int
        };
        let rest = s.subrange(cut, s.len() as int);
        let more = replaced(rest, part, "***"@);
        let before = if s.subrange(0, part.len() as int) == part {
            3int
        } else {
            1int
        };
        if i >= before {
            assert(more.subrange(i - before, i - before + n) =~= r.subrange(i, i + n));
            assert(stands_at(more, q, i - before));
            lemma_stood_before(rest, part, q, i - before);
            let k = choose|k: int| stands_at(rest, q, k);
            assert(s.subrange(k + cut, k + cut + n) =~= rest.subrange(k, k + n));
            assert(stands_at(s, q, k + cut));
        } else if before == 3 {
            assert(r[i] == '*');
        } else {
            assert forall|j: int| 0 <= j < n implies #[trigger] r[j] != '*' by {
                assert(r.subrange(0, n)[j] == q[j]);
            }
            lemma_start_before_stars(s, part, n);
            assert(stands_at(s, q, 0));
        }
    }
}

proof fn lemma_replaced_is_gone(s: Seq<char>, q: Seq<char>, i: int)
    requires
        q.len() > 0,
        lacks(q, '*'),
    ensures
        !stands_at(replaced(s, q, "***"@), q, i),
    decreases s.len(),
{
    reveal_strlit("***");
    let r = replaced(s, q, "***"@);
    let n = q.len() as int;
    if stands_at(r, q, i) {
        assert(r.subrange(i, i + n)[0] == r[i]);
        assert(q[0] != '*');
        if s.len() < n {
        } else if s.subrange(0, n) == q {
            let rest = s.subrange(n, s.len() as int);
            let more = replaced(rest, q, "***"@);
            if i < 3 {
                assert(r[i] == '*');
            } else {
                assert(more.subrange(i - 3, i - 3 + n) =~= r.subrange(i, i + n));
                lemma_replaced_is_gone(rest, q, i - 3);
            }
        } else {
            let rest = s.subrange(1, s.len() as int);
            let more = replaced(rest, q, "***"@);
            if i == 0 {
                assert forall|j: int| 0 <= j < n implies #[trigger] r[j] != '*' by {
                    assert(r.subrange(0, n)[j] == q[j]);
                }
                lemma_start_before_stars(s, q, n);
            } else {
                assert(more.subrange(i - 1, i - 1 + n) =~= r.subrange(i, i + n));
                lemma_replaced_is_gone(rest, q, i - 1);
            }
        }
    }
}

/// The secret is this token, alone or behind the word for a bearer.
pub open spec fn is_secret(secret: Seq<char>, token: Seq<char>) -> bool {
    ||| trim(secret) == token
    ||| exists|scheme: Seq<char>|
        trim(secret) == #[trigger] (scheme + seq![' '] + token) && lower(scheme) == lower(
            "bearer"@,
        )
}

/// The text is a token: nothing in it is white space, and it does not look like what a mask or a cut
/// leaves.
pub open spec fn is_token(token: Seq<char>) -> bool {
    &&& token.len() > 0
    &&& byte_len(token) >= 4
    &&& forall|i: int| 0 <= i < token.len() ==> !is_white(#[trigger] token[i])
    &&& lacks(token, '*')
    &&& lacks(token, '…')
}

proof fn lemma_replacing_shows_nothing(s: Seq<char>, part: Seq<char>, q: Seq<char>)
    requires
        q.len() > 0,
        lacks(q, '*'),
        !contains_text(s, q) || part == q,
    ensures
        !contains_text(replaced(s, part, "***"@), q),
{
    if contains_text(replaced(s, part, "***"@), q) {
        let i = choose|i: int| stands_at(replaced(s, part, "***"@), q, i);
        if part == q {
            lemma_replaced_is_gone(s, q, i);
        } else {
            lemma_stood_before(s, part, q, i);
        }
    }
}

proof fn lemma_masking_shows_nothing(s: Seq<char>, secret: Seq<char>, q: Seq<char>)
    requires
        q.len() > 0,
        lacks(q, '*'),
        !contains_text(s, q),
    ensures
        !contains_text(mask_one(s, secret), q),
{
    let t = trim(secret);
    let whole = replaced(s, t, "***"@);
    lemma_replacing_shows_nothing(s, t, q);
    if let Some((_, token)) = cut_at(t, ' ') {
        lemma_replacing_shows_nothing(whole, trim(token), q);
    }
}

proof fn lemma_secret_is_masked(s: Seq<char>, secret: Seq<char>, q: Seq<char>)
    requires
        is_token(q),
        is_secret(secret, q),
        byte_len(trim(secret)) >= 4,
    ensures
        !contains_text(mask_one(s, secret), q),
{
    let t = trim(secret);
    let whole = replaced(s, t, "***"@);
    if t == q {
        lemma_replacing_shows_nothing(s, t, q);
        if let Some((_, token)) = cut_at(t, ' ') {
            lemma_replacing_shows_nothing(whole, trim(token), q);
        }
    } else {
        let scheme = choose|scheme: Seq<char>|
            t == #[trigger] (scheme + seq![' '] + q) && lower(scheme) == lower("bearer"@);
        reveal_strlit("bearer");
        assert forall|i: int| 0 <= i < scheme.len() implies #[trigger] scheme[i] != ' ' by {
            assert(lower(scheme).len() == 6 && lower("bearer"@).len() == 6);
            assert(lower(scheme)[i] == lower("bearer"@)[i]);
            assert("bearer"@[i] != ' ' && !('A' <= "bearer"@[i] <= 'Z'));
            assert(lower_char("bearer"@[i]) != ' ');
        }
        cut_at_first(scheme, ' ', q);
        trim_of_clean(q);
        lemma_replacing_shows_nothing(whole, q, q);
    }
}

proof fn lemma_secrets_are_masked(s: Seq<char>, secrets: Seq<Seq<char>>, q: Seq<char>, i: int)
    requires
        0 <= i < secrets.len(),
        is_token(q),
        is_secret(secrets[i], q),
        byte_len(trim(secrets[i])) >= 4,
    ensures
        !contains_text(mask(s, secrets), q),
    decreases secrets.len(),
{
    let rest = secrets.drop_last();
    if i == secrets.len() - 1 {
        lemma_secret_is_masked(mask(s, rest), secrets.last(), q);
    } else {
        lemma_secrets_are_masked(s, rest, q, i);
        lemma_masking_shows_nothing(mask(s, rest), secrets.last(), q);
    }
}

proof fn lemma_piece_stood(s: Seq<char>, sep: Sep, k: int, q: Seq<char>)
    requires
        0 <= k < split(s, sep).len(),
        contains_text(split(s, sep)[k], q),
    ensures
        contains_text(s, q),
    decreases s.len(),
{
    let i = find_sep(s, sep);
    let pieces = split(s, sep);
    let n = q.len() as int;
    if 0 <= i < s.len() {
        let rest = s.subrange(i + 1, s.len() as int);
        if k == 0 {
            let a = choose|a: int| stands_at(pieces[0], q, a);
            assert(s.subrange(a, a + n) =~= s.subrange(0, i).subrange(a, a + n));
            assert(stands_at(s, q, a));
        } else {
            assert(pieces[k] == split(rest, sep)[k - 1]);
            lemma_piece_stood(rest, sep, k - 1, q);
            let a = choose|a: int| stands_at(rest, q, a);
            assert(s.subrange(a + i + 1, a + i + 1 + n) =~= rest.subrange(a, a + n));
            assert(stands_at(s, q, a + i + 1));
        }
    }
}

proof fn lemma_nonempty_is_piece(pieces: Seq<Seq<char>>, k: int) -> (m: int)
    requires
        0 <= k < nonempty(pieces).len(),
    ensures
        0 <= m < pieces.len(),
        pieces[m] == nonempty(pieces)[k],
    decreases pieces.len(),
{
    let rest = nonempty(pieces.drop_last());
    if k < rest.len() {
        lemma_nonempty_is_piece(pieces.drop_last(), k)
    } else {
        pieces.len() - 1
    }
}

proof fn lemma_joined_stood(pieces: Seq<Seq<char>>, q: Seq<char>, i: int) -> (k: int)
    requires
        q.len() > 0,
        lacks(q, ' '),
        stands_at(joined(pieces, " "@), q, i),
    ensures
        0 <= k < pieces.len(),
        contains_text(pieces[k], q),
    decreases pieces.len(),
{
    reveal_strlit(" ");
    let n = q.len() as int;
    if pieces.len() <= 1 {
        assert(stands_at(pieces[0], q, i));
        0
    } else {
        let start = joined(pieces.drop_last(), " "@);
        let line = joined(pieces, " "@);
        let m = start.len() as int;
        if i + n <= m {
            assert(start.subrange(i, i + n) =~= line.subrange(i, i + n));
            assert(stands_at(start, q, i));
            lemma_joined_stood(pieces.drop_last(), q, i)
        } else if i > m {
            assert(pieces.last().subrange(i - m - 1, i - m - 1 + n) =~= line.subrange(i, i + n));
            assert(stands_at(pieces.last(), q, i - m - 1));
            pieces.len() - 1
        } else {
            assert(line[m] == ' ');
            assert(line.subrange(i, i + n)[m - i] == line[m]);
            assert(q[m - i] == ' ');
            0
        }
    }
}

/// No token of a secret is shown, wherever it stands in a text and however often, alone or as a
/// bearer's.
pub proof fn no_secret_is_shown(
    s: Seq<char>,
    secrets: Seq<Seq<char>>,
    max_chars: nat,
    i: int,
    token: Seq<char>,
)
    requires
        0 <= i < secrets.len(),
        is_token(token),
        is_secret(secrets[i], token),
        byte_len(trim(secrets[i])) >= 4,
    ensures
        sanitized(s, secrets, max_chars) matches Some(shown) ==> !contains_text(shown, token),
{
    let masked = mask(s, secrets);
    lemma_secrets_are_masked(s, secrets, token, i);
    let pieces = split(masked, Sep::White);
    let line = joined(words(masked), " "@);
    let n = token.len() as int;
    assert(lacks(token, ' ')) by {
        assert forall|k: int| 0 <= k < token.len() implies #[trigger] token[k] != ' ' by {
            assert(!is_white(token[k]));
        }
    }
    if contains_text(line, token) {
        let at = choose|at: int| stands_at(line, token, at);
        let k = lemma_joined_stood(words(masked), token, at);
        let m = lemma_nonempty_is_piece(pieces, k);
        lemma_piece_stood(masked, Sep::White, m, token);
        assert(false);
    }
    if line.len() > max_chars {
        let shown = line.subrange(0, max_chars as int).push('…');
        if contains_text(shown, token) {
            let at = choose|at: int| stands_at(shown, token, at);
            if at + n <= max_chars {
                assert(line.subrange(at, at + n) =~= shown.subrange(at, at + n));
                assert(stands_at(line, token, at));
            } else {
                assert(shown.subrange(at, at + n)[n - 1] == '…');
                assert(token[n - 1] == '…');
            }
        }
    }
}

/// A text without a secret is shown as it is, where it is one line of words and short enough.
pub proof fn plain_words_are_shown(word: Seq<char>, max_chars: nat)
    requires
        0 < word.len() <= max_chars,
        forall|i: int| 0 <= i < word.len() ==> !is_white(#[trigger] word[i]),
    ensures
        sanitized(word, Seq::empty(), max_chars) == Some(word),
{
    lemma_no_white(word);
    let pieces = split(word, Sep::White);
    assert(pieces =~= seq![word]);
    assert(pieces.drop_last() =~= Seq::<Seq<char>>::empty());
    assert(nonempty(pieces.drop_last()) =~= Seq::<Seq<char>>::empty());
    assert(nonempty(pieces) =~= Seq::<Seq<char>>::empty().push(word));
}

proof fn lemma_no_white(s: Seq<char>)
    requires
        forall|i: int| 0 <= i < s.len() ==> !is_white(#[trigger] s[i]),
    ensures
        find_sep(s, Sep::White) == s.len(),
    decreases s.len(),
{
    if s.len() > 0 {
        let rest = s.subrange(1, s.len() as int);
        assert(!is_white(s[0]));
        assert forall|i: int| 0 <= i < rest.len() implies !is_white(#[trigger] rest[i]) by {
            assert(rest[i] == s[i + 1]);
        }
        lemma_no_white(rest);
    }
}

/// An error event is told with the user's words, in the place where the client looks for them, and is
/// otherwise as it was.
pub proof fn an_annotated_event_says_the_words(event: JsonV, words: Seq<char>, key: Seq<char>)
    requires
        event is Object,
    ensures
        ({
            let after = annotated(event, words);
            let response = event.get("response"@);
            let inner = event.get2("response"@, "error"@);
            let nested = response is Some && response->0 is Object && inner is Some && inner->0 is Object;
            let own = event.get("error"@) is Some && event.get("error"@)->0 is Object;
            &&& nested ==> after.get3("response"@, "error"@, "message"@) == Some(JsonV::Str(words))
            &&& nested && key != "message"@ ==> after.get3("response"@, "error"@, key) == event.get3(
                "response"@,
                "error"@,
                key,
            )
            &&& nested && key != "response"@ ==> after.get(key) == event.get(key)
            &&& !nested && own ==> after.get2("error"@, "message"@) == Some(JsonV::Str(words))
            &&& !nested && own && key != "message"@ ==> after.get2("error"@, key) == event.get2(
                "error"@,
                key,
            )
            &&& !nested && own && key != "error"@ ==> after.get(key) == event.get(key)
            &&& !nested && !own ==> after.get("message"@) == Some(JsonV::Str(words))
            &&& !nested && !own && key != "message"@ ==> after.get(key) == event.get(key)
        }),
{
}

/// An error is told in full: its words, its type and its code, each where it is known; and nothing is
/// told where nothing is.
pub proof fn an_error_is_told_in_full(
    message: Option<Seq<char>>,
    error_type: Option<Seq<char>>,
    code: Option<Seq<char>>,
)
    ensures
        error_detail(message, error_type, code) is None <==> error_type is None && code is None && (
        message is None || message->0.len() == 0),
        message is Some && message->0.len() > 0 ==> contains_text(
            error_detail(message, error_type, code)->0,
            message->0,
        ),
        error_type matches Some(t) ==> contains_text(error_detail(message, error_type, code)->0, t),
        code matches Some(c) ==> contains_text(error_detail(message, error_type, code)->0, c),
{
    let told = error_detail(message, error_type, code)->0;
    let words = match message {
        Some(m) => m,
        None => Seq::empty(),
    };
    let about = error_attributes(error_type, code);
    let more = error_type is Some || code is Some;
    let shift: int = if words.len() > 0 {
        (words.len() + "（"@.len()) as int
    } else {
        0
    };
    if words.len() > 0 {
        assert(told.subrange(0, words.len() as int) =~= words);
        assert(stands_at(told, words, 0));
    }
    if more {
        if let Some(t) = error_type {
            let at = shift + "类型："@.len();
            assert(told.subrange(at, at + t.len()) =~= t);
            assert(stands_at(told, t, at));
        }
        if let Some(c) = code {
            let at = shift + about.len() - c.len();
            assert(told.subrange(at, at + c.len()) =~= c);
            assert(stands_at(told, c, at));
        }
    }
}

} // verus!
