//! The output limit that a request gets where it leaves one out and its model needs room to think.
use crate::json::{Json, JsonV};
use crate::local_router::routing::ProtocolBridge;
use crate::text::{
    Sep, char_is_digit, chars_of, ends_with, eq_ignoring_case, find_sep, has_suffix, is_digit,
    keep_nonempty, lower, nonempty, same_ignoring_case, split, split_text, str_eq, text_of, texts,
    to_lower, trim, trimmed, words,
};
use vstd::prelude::*;
use vstd::string::*;

verus! {

pub const DEFAULT_ANTHROPIC_MAX_TOKENS: u64 = 8192;

/// The most that is filled in.
pub const CLAUDE_HIGH_EFFORT_OUTPUT_TOKENS: u64 = 64_000;

/// The effort leaves the usual limit too small.
pub open spec fn needs_headroom(effort: Seq<char>) -> bool {
    let e = trim(effort);
    !(e.len() == 0 || same_ignoring_case(e, "none"@) || same_ignoring_case(e, "minimal"@)
        || same_ignoring_case(e, "low"@) || same_ignoring_case(e, "medium"@))
}

fn reasoning_effort_needs_output_headroom(effort: &str) -> (r: bool)
    ensures
        r == needs_headroom(effort@),
{
    let t = trimmed(effort);
    let e = t.as_str();
    !(e.is_empty() || eq_ignoring_case(e, "none") || eq_ignoring_case(e, "minimal")
        || eq_ignoring_case(e, "low") || eq_ignoring_case(e, "medium"))
}

/// A model's name without the mark of a long context.
pub open spec fn without_context_mark(model: Seq<char>) -> Seq<char> {
    if ends_with(lower(model), "[1m]"@) {
        model.subrange(0, model.len() - 4)
    } else {
        model
    }
}

/// The words of a model's name, in lower case.
pub open spec fn model_words(model: Seq<char>) -> Seq<Seq<char>> {
    let path = split(without_context_mark(trim(model)), Sep::Slash);
    let words = nonempty(split(path.last(), Sep::NotAlnum));
    Seq::new(words.len(), |i: int| lower(words[i]))
}

fn strip_context_mark(model: &str) -> (r: String)
    ensures
        r@ == without_context_mark(model@),
{
    proof {
        reveal_strlit("[1m]");
        assert("[1m]"@.len() == 4);
    }
    if has_suffix(to_lower(model).as_str(), "[1m]") {
        let v = chars_of(model);
        text_of(&v, 0, v.len() - 4)
    } else {
        model.to_owned()
    }
}

proof fn lemma_split_nonempty(s: Seq<char>, sep: Sep)
    ensures
        split(s, sep).len() >= 1,
    decreases s.len(),
{
    let i = find_sep(s, sep);
    if 0 <= i < s.len() {
        lemma_split_nonempty(s.subrange(i + 1, s.len() as int), sep);
    }
}

fn claude_model_tokens(model: &str) -> (r: Vec<String>)
    ensures
        texts(r@) == model_words(model@),
{
    let marked = strip_context_mark(trimmed(model).as_str());
    let path = split_text(marked.as_str(), Sep::Slash);
    proof {
        lemma_split_nonempty(marked@, Sep::Slash);
        assert(texts(path@).len() == path.len());
    }
    let words = keep_nonempty(split_text(path[path.len() - 1].as_str(), Sep::NotAlnum));
    let ghost all = texts(words@);
    let mut out: Vec<String> = Vec::new();
    let mut i: usize = 0;
    while i < words.len()
        invariant
            i <= words.len(),
            all == texts(words@),
            out.len() == i,
            forall|j: int| 0 <= j < i ==> (#[trigger] out@[j])@ == lower(all[j]),
        decreases words.len() - i,
    {
        out.push(to_lower(words[i].as_str()));
        i = i + 1;
    }
    proof {
        assert(texts(out@) =~= model_words(model@));
    }
    out
}

/// A short number in a model's name.
pub open spec fn small_version(word: Seq<char>) -> Option<u32> {
    if word.len() == 1 && is_digit(word[0]) {
        Some((word[0] as u32 - 48) as u32)
    } else if word.len() == 2 && is_digit(word[0]) && is_digit(word[1]) {
        Some((10 * (word[0] as u32 - 48) + (word[1] as u32 - 48)) as u32)
    } else {
        None
    }
}

fn small_model_version(word: &str) -> (r: Option<u32>)
    ensures
        r == small_version(word@),
{
    let v = chars_of(word);
    if v.len() == 1 && char_is_digit(v[0]) {
        Some(v[0] as u32 - 48)
    } else if v.len() == 2 && char_is_digit(v[0]) && char_is_digit(v[1]) {
        Some(10 * (v[0] as u32 - 48) + (v[1] as u32 - 48))
    } else {
        None
    }
}

pub open spec fn version_at(words: Seq<Seq<char>>, i: int) -> Option<u32> {
    if 0 <= i < words.len() {
        small_version(words[i])
    } else {
        None
    }
}

fn version_word(words: &Vec<String>, i: usize) -> (r: Option<u32>)
    ensures
        r == version_at(texts(words@), i as int),
{
    if i < words.len() {
        small_model_version(words[i].as_str())
    } else {
        None
    }
}

/// The version behind a family's name.
pub open spec fn version_after_word(words: Seq<Seq<char>>, i: int) -> Option<(u32, u32)> {
    match version_at(words, i + 1) {
        None => None,
        Some(major) => Some(
            (
                major,
                match version_at(words, i + 2) {
                    Some(minor) => minor,
                    None => 0,
                },
            ),
        ),
    }
}

fn version_after(words: &Vec<String>, i: usize) -> (r: Option<(u32, u32)>)
    requires
        i < words.len(),
    ensures
        r == version_after_word(texts(words@), i as int),
{
    match version_word(words, i + 1) {
        None => None,
        Some(major) => {
            let minor = if i + 1 < words.len() {
                version_word(words, i + 2)
            } else {
                None
            };
            Some(
                (
                    major,
                    match minor {
                        Some(m) => m,
                        None => 0,
                    },
                ),
            )
        },
    }
}

/// The version before a family's name.
pub open spec fn version_before_word(words: Seq<Seq<char>>, i: int) -> Option<(u32, u32)> {
    match version_at(words, i - 1) {
        None => None,
        Some(near) => match version_at(words, i - 2) {
            Some(far) => Some((far, near)),
            None => Some((near, 0)),
        },
    }
}

fn version_before(words: &Vec<String>, i: usize) -> (r: Option<(u32, u32)>)
    requires
        i < words.len(),
    ensures
        r == version_before_word(texts(words@), i as int),
{
    if i == 0 {
        return None;
    }
    match version_word(words, i - 1) {
        None => None,
        Some(near) => {
            let far = if i >= 2 {
                version_word(words, i - 2)
            } else {
                None
            };
            match far {
                Some(f) => Some((f, near)),
                None => Some((near, 0)),
            }
        },
    }
}

/// A word that tells who made a model: the maker's own, in lower case, or a family that goes without
/// it.
pub open spec fn names_maker(word: Seq<char>, maker: Seq<char>) -> bool {
    word == maker || word == "fable"@ || word == "mythos"@
}

pub open spec fn names_family(word: Seq<char>) -> bool {
    word == "opus"@ || word == "sonnet"@ || word == "haiku"@ || word == "fable"@ || word
        == "mythos"@
}

/// The first word that names a family, or the number of words.
pub open spec fn family_index(words: Seq<Seq<char>>) -> int
    decreases words.len(),
{
    if words.len() == 0 || names_family(words[0]) {
        0
    } else {
        1 + family_index(words.subrange(1, words.len() as int))
    }
}

/// The first short number among the words.
pub open spec fn first_version(words: Seq<Seq<char>>) -> Option<u32>
    decreases words.len(),
{
    if words.len() == 0 {
        None
    } else if small_version(words[0]) is Some {
        small_version(words[0])
    } else {
        first_version(words.subrange(1, words.len() as int))
    }
}

/// The known output limit of a family's version.
pub open spec fn family_cap(family: Seq<char>, version: Option<(u32, u32)>) -> u64 {
    match version {
        None => CLAUDE_HIGH_EFFORT_OUTPUT_TOKENS,
        Some((major, minor)) => if family == "opus"@ {
            if major <= 3 {
                4_096
            } else if major == 4 && minor <= 1 {
                32_000
            } else if major == 4 && minor <= 5 {
                CLAUDE_HIGH_EFFORT_OUTPUT_TOKENS
            } else {
                128_000
            }
        } else if family == "sonnet"@ {
            if major == 3 && minor >= 7 {
                CLAUDE_HIGH_EFFORT_OUTPUT_TOKENS
            } else if major <= 3 {
                DEFAULT_ANTHROPIC_MAX_TOKENS
            } else if major == 4 && minor <= 5 {
                CLAUDE_HIGH_EFFORT_OUTPUT_TOKENS
            } else {
                128_000
            }
        } else if family == "haiku"@ && major <= 3 {
            DEFAULT_ANTHROPIC_MAX_TOKENS
        } else {
            CLAUDE_HIGH_EFFORT_OUTPUT_TOKENS
        },
    }
}

/// The known output limit of a model by the words of its name. Models of other makers have none.
pub open spec fn words_cap(words: Seq<Seq<char>>, maker: Seq<char>) -> Option<u64> {
    let i = family_index(words);
    if !(exists|k: int| 0 <= k < words.len() && names_maker(#[trigger] words[k], maker)) {
        None
    } else if !(0 <= i < words.len()) {
        match first_version(words) {
            Some(major) => if major <= 3 {
                Some(DEFAULT_ANTHROPIC_MAX_TOKENS)
            } else {
                Some(CLAUDE_HIGH_EFFORT_OUTPUT_TOKENS)
            },
            None => Some(CLAUDE_HIGH_EFFORT_OUTPUT_TOKENS),
        }
    } else if words[i] == "fable"@ || words[i] == "mythos"@ {
        Some(128_000)
    } else {
        Some(
            family_cap(
                words[i],
                match version_after_word(words, i) {
                    Some(v) => Some(v),
                    None => version_before_word(words, i),
                },
            ),
        )
    }
}

fn has_maker(words: &Vec<String>, maker: &str) -> (r: bool)
    ensures
        r == exists|k: int|
            0 <= k < texts(words@).len() && names_maker(#[trigger] texts(words@)[k], maker@),
{
    let mut i: usize = 0;
    while i < words.len()
        invariant
            i <= words.len(),
            forall|j: int| 0 <= j < i ==> !names_maker(#[trigger] texts(words@)[j], maker@),
        decreases words.len() - i,
    {
        let w = words[i].as_str();
        if str_eq(w, maker) || str_eq(w, "fable") || str_eq(w, "mythos") {
            proof {
                assert(names_maker(texts(words@)[i as int], maker@));
            }
            return true;
        }
        i = i + 1;
    }
    false
}

fn find_family(words: &Vec<String>) -> (r: usize)
    ensures
        r == family_index(texts(words@)),
        r <= words.len(),
{
    let ghost all = texts(words@);
    let mut i: usize = 0;
    proof {
        assert(all.subrange(0, all.len() as int) =~= all);
    }
    while i < words.len()
        invariant
            i <= words.len(),
            all == texts(words@),
            family_index(all) == i + family_index(all.subrange(i as int, all.len() as int)),
        decreases words.len() - i,
    {
        proof {
            let rest = all.subrange(i as int, all.len() as int);
            assert(rest[0] == words@[i as int]@);
            assert(rest.subrange(1, rest.len() as int) =~= all.subrange(i + 1, all.len() as int));
        }
        let w = words[i].as_str();
        if str_eq(w, "opus") || str_eq(w, "sonnet") || str_eq(w, "haiku") || str_eq(w, "fable")
            || str_eq(w, "mythos") {
            return i;
        }
        i = i + 1;
    }
    i
}

fn find_version(words: &Vec<String>) -> (r: Option<u32>)
    ensures
        r == first_version(texts(words@)),
{
    let ghost all = texts(words@);
    let mut i: usize = 0;
    proof {
        assert(all.subrange(0, all.len() as int) =~= all);
    }
    while i < words.len()
        invariant
            i <= words.len(),
            all == texts(words@),
            first_version(all) == first_version(all.subrange(i as int, all.len() as int)),
        decreases words.len() - i,
    {
        proof {
            let rest = all.subrange(i as int, all.len() as int);
            assert(rest[0] == words@[i as int]@);
            assert(rest.subrange(1, rest.len() as int) =~= all.subrange(i + 1, all.len() as int));
        }
        let version = small_model_version(words[i].as_str());
        if version.is_some() {
            return version;
        }
        i = i + 1;
    }
    None
}

fn cap_of_family(family: &str, version: Option<(u32, u32)>) -> (r: u64)
    ensures
        r == family_cap(family@, version),
{
    let (major, minor) = match version {
        None => {
            return CLAUDE_HIGH_EFFORT_OUTPUT_TOKENS;
        },
        Some(v) => v,
    };
    if str_eq(family, "opus") {
        if major <= 3 {
            4_096
        } else if major == 4 && minor <= 1 {
            32_000
        } else if major == 4 && minor <= 5 {
            CLAUDE_HIGH_EFFORT_OUTPUT_TOKENS
        } else {
            128_000
        }
    } else if str_eq(family, "sonnet") {
        if major == 3 && minor >= 7 {
            CLAUDE_HIGH_EFFORT_OUTPUT_TOKENS
        } else if major <= 3 {
            DEFAULT_ANTHROPIC_MAX_TOKENS
        } else if major == 4 && minor <= 5 {
            CLAUDE_HIGH_EFFORT_OUTPUT_TOKENS
        } else {
            128_000
        }
    } else if str_eq(family, "haiku") && major <= 3 {
        DEFAULT_ANTHROPIC_MAX_TOKENS
    } else {
        CLAUDE_HIGH_EFFORT_OUTPUT_TOKENS
    }
}

/// The known output limit of a model. `maker` is the word, in lower case, by which the names of its
/// maker's models go.
pub fn claude_output_token_cap(model: &str, maker: &str) -> (r: Option<u64>)
    ensures
        r == words_cap(model_words(model@), maker@),
{
    let words = claude_model_tokens(model);
    if !has_maker(&words, maker) {
        return None;
    }
    let i = find_family(&words);
    if i >= words.len() {
        return match find_version(&words) {
            Some(major) => if major <= 3 {
                Some(DEFAULT_ANTHROPIC_MAX_TOKENS)
            } else {
                Some(CLAUDE_HIGH_EFFORT_OUTPUT_TOKENS)
            },
            None => Some(CLAUDE_HIGH_EFFORT_OUTPUT_TOKENS),
        };
    }
    let family = words[i].as_str();
    if str_eq(family, "fable") || str_eq(family, "mythos") {
        return Some(128_000);
    }
    let version = match version_after(&words, i) {
        Some(v) => Some(v),
        None => version_before(&words, i),
    };
    Some(cap_of_family(family, version))
}

/// The limit for a model that needs room: what the model can do, at most the high limit. Models
/// that cannot do more than usual get none, and neither do other makers' models, unless their
/// upstream speaks the Messages protocol.
pub open spec fn omitted_limit(model: Seq<char>, maker: Seq<char>, bridge: ProtocolBridge) -> Option<u64> {
    match words_cap(model_words(model), maker) {
        Some(cap) => {
            let limit = if cap < CLAUDE_HIGH_EFFORT_OUTPUT_TOKENS {
                cap
            } else {
                CLAUDE_HIGH_EFFORT_OUTPUT_TOKENS
            };
            if limit > DEFAULT_ANTHROPIC_MAX_TOKENS {
                Some(limit)
            } else {
                None
            }
        },
        None => if bridge == ProtocolBridge::ResponsesToAnthropicMessages {
            Some(CLAUDE_HIGH_EFFORT_OUTPUT_TOKENS)
        } else {
            None
        },
    }
}

/// The limit for a model that needs room.
pub fn omitted_reasoning_output_limit(model: &str, maker: &str, bridge: ProtocolBridge) -> (r: Option<u64>)
    ensures
        r == omitted_limit(model@, maker@, bridge),
{
    match claude_output_token_cap(model, maker) {
        Some(cap) => {
            let limit = if cap < CLAUDE_HIGH_EFFORT_OUTPUT_TOKENS {
                cap
            } else {
                CLAUDE_HIGH_EFFORT_OUTPUT_TOKENS
            };
            if limit > DEFAULT_ANTHROPIC_MAX_TOKENS {
                Some(limit)
            } else {
                None
            }
        },
        None => match bridge {
            ProtocolBridge::ResponsesToAnthropicMessages => Some(CLAUDE_HIGH_EFFORT_OUTPUT_TOKENS),
            _ => None,
        },
    }
}

/// The effort that a request asks for.
pub open spec fn effort_of(body: JsonV) -> Seq<char> {
    match body.get_str("reasoning_effort"@) {
        Some(e) => e,
        None => match body.get2("reasoning"@, "effort"@) {
            Some(JsonV::Str(e)) => e,
            _ => Seq::empty(),
        },
    }
}

/// The limit that a request gets, where it leaves one out and needs one.
pub open spec fn limit_to_fill(body: JsonV, maker: Seq<char>, bridge: ProtocolBridge) -> Option<u64> {
    if !body.is_object() || body.has("max_output_tokens"@) || body.has("max_tokens"@) {
        None
    } else if needs_headroom(effort_of(body)) {
        omitted_limit(body.str_or_empty("model"@), maker, bridge)
    } else {
        None
    }
}

/// Fills in the output limit that a request leaves out, where it needs one. Says whether it did.
pub fn ensure_omitted_reasoning_output_limit(
    body: &mut Json,
    maker: &str,
    bridge: ProtocolBridge,
) -> (r: bool)
    ensures
        r == (limit_to_fill(old(body)@, maker@, bridge) is Some),
        final(body)@ == match limit_to_fill(old(body)@, maker@, bridge) {
            Some(limit) => old(body)@.with("max_output_tokens"@, JsonV::Unsigned(limit)),
            None => old(body)@,
        },
{
    if !body.is_object() || body.has("max_output_tokens") || body.has("max_tokens") {
        return false;
    }
    let effort = match body.get_str("reasoning_effort") {
        Some(e) => e.to_owned(),
        None => match body.get2("reasoning", "effort") {
            Some(v) => match v.as_str() {
                Some(e) => e.to_owned(),
                None => String::new(),
            },
            None => String::new(),
        },
    };
    if !reasoning_effort_needs_output_headroom(effort.as_str()) {
        return false;
    }
    let model = body.str_or_empty("model");
    match omitted_reasoning_output_limit(model.as_str(), maker, bridge) {
        None => false,
        Some(limit) => {
            body.insert("max_output_tokens", Json::unsigned(limit));
            true
        },
    }
}

/// A limit that a request sets itself keeps its meaning.
pub proof fn a_limit_of_the_request_stays(body: JsonV, maker: Seq<char>, bridge: ProtocolBridge)
    requires
        body.has("max_output_tokens"@) || body.has("max_tokens"@),
    ensures
        limit_to_fill(body, maker, bridge) is None,
{
}

/// What is filled in is more than usual and at most the high limit, and filling in once is enough.
pub proof fn a_filled_limit_is_in_range(body: JsonV, maker: Seq<char>, bridge: ProtocolBridge)
    requires
        limit_to_fill(body, maker, bridge) is Some,
    ensures
        DEFAULT_ANTHROPIC_MAX_TOKENS < limit_to_fill(body, maker, bridge)->0
            <= CLAUDE_HIGH_EFFORT_OUTPUT_TOKENS,
        limit_to_fill(
            body.with("max_output_tokens"@, JsonV::Unsigned(limit_to_fill(body, maker, bridge)->0)),
            maker,
            bridge,
        ) is None,
{
}

/// A later version of a family is allowed no less than an earlier one.
pub proof fn a_later_version_is_allowed_no_less(
    family: Seq<char>,
    earlier: (u32, u32),
    later: (u32, u32),
)
    requires
        earlier.0 < later.0 || (earlier.0 == later.0 && earlier.1 <= later.1),
    ensures
        family_cap(family, Some(earlier)) <= family_cap(family, Some(later)),
{
}

/// A family's limit goes by its version: small before its fourth, high from then on, and higher still
/// for the larger families once they have come further.
pub proof fn a_family_is_limited_by_its_version(major: u32, minor: u32)
    ensures
        ({
            let opus = family_cap("opus"@, Some((major, minor)));
            let sonnet = family_cap("sonnet"@, Some((major, minor)));
            let haiku = family_cap("haiku"@, Some((major, minor)));
            let far = major > 4 || (major == 4 && minor > 5);
            &&& opus == 128_000 <==> far
            &&& sonnet == 128_000 <==> far
            &&& major <= 3 ==> opus == 4_096
            &&& major == 4 && minor <= 1 ==> opus == 32_000
            &&& major == 4 && 1 < minor <= 5 ==> opus == 64_000
            &&& major < 3 || (major == 3 && minor < 7) ==> sonnet == DEFAULT_ANTHROPIC_MAX_TOKENS
            &&& (major == 3 && minor >= 7) || (major == 4 && minor <= 5) ==> sonnet == 64_000
            &&& major <= 3 ==> haiku == DEFAULT_ANTHROPIC_MAX_TOKENS
            &&& major > 3 ==> haiku == 64_000
        }),
{
    reveal_strlit("opus");
    reveal_strlit("sonnet");
    reveal_strlit("haiku");
    assert("opus"@.len() == 4 && "sonnet"@.len() == 6 && "haiku"@.len() == 5);
}

/// A request gets a limit exactly where it leaves one out, needs one and its model can do more than
/// usual; and then as much as its model can do, up to the high limit.
pub proof fn a_left_out_limit_is_what_the_model_can_do(
    body: JsonV,
    maker: Seq<char>,
    bridge: ProtocolBridge,
    cap: u64,
)
    requires
        body is Object,
        body.get("max_output_tokens"@) is None,
        body.get("max_tokens"@) is None,
        needs_headroom(effort_of(body)),
        words_cap(model_words(body.str_or_empty("model"@)), maker) == Some(cap),
    ensures
        cap <= DEFAULT_ANTHROPIC_MAX_TOKENS ==> limit_to_fill(body, maker, bridge) is None,
        DEFAULT_ANTHROPIC_MAX_TOKENS < cap <= 64_000 ==> limit_to_fill(body, maker, bridge) == Some(
            cap,
        ),
        cap > 64_000 ==> limit_to_fill(body, maker, bridge) == Some(64_000u64),
{
}

/// A low effort needs no room, in whatever case it is written; any other does, where one is named.
pub proof fn a_low_effort_needs_no_room(effort: Seq<char>)
    ensures
        needs_headroom(effort) <==> trim(effort).len() > 0 && lower(trim(effort)) != lower("none"@)
            && lower(trim(effort)) != lower("minimal"@) && lower(trim(effort)) != lower("low"@)
            && lower(trim(effort)) != lower("medium"@),
{
}

} // verus!
