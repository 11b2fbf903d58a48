//! Model ids: how they are compared, and the selectors that name a route and a model.
use crate::json::text_view;
use crate::text::{
    cat3, cut_at, cut_at_first, eq_ignoring_case, head, is_white, lower, split_once, texts,
    texts_push, to_lower, trim, trim_leaves_clean_ends, trim_of_clean, trimmed,
};
use crate::textmap::{TextBox, TextMap, lookup};
use vstd::prelude::*;
use vstd::string::*;
use vstd::utf8::*;

verus! {

/// What identifies a model: its id without white space around it, in lower case.
pub open spec fn model_key(model: Seq<char>) -> Seq<char> {
    lower(trim(model))
}

/// What identifies a model.
pub fn key(model: &str) -> (r: String)
    ensures
        r@ == model_key(model@),
{
    to_lower(trimmed(model).as_str())
}

/// Whether two ids are those of one model.
pub fn equal(left: &str, right: &str) -> (r: bool)
    ensures
        r == (model_key(left@) == model_key(right@)),
{
    eq_ignoring_case(trimmed(left).as_str(), trimmed(right).as_str())
}

/// The upstream model of a selector that was recorded once.
pub fn historical_source<'a>(model: &str, aliases: &'a TextMap<TextBox>) -> (r: Option<&'a str>)
    requires
        aliases.inv(),
    ensures
        text_view(r) == lookup(aliases@, model_key(trim(model@))),
{
    match aliases.get(key(trimmed(model).as_str()).as_str()) {
        Some(source) => Some(source.text.as_str()),
        None => None,
    }
}

/// A selector that names a route and a model.
#[derive(Debug)]
pub struct RouteAlias {
    pub provider_key: String,
    pub upstream_model: String,
}

/// The parts of a selector: what stands before the first slash, and what stands behind it.
pub open spec fn alias_parts(alias: Seq<char>) -> Option<(Seq<char>, Seq<char>)> {
    match cut_at(trim(alias), '/') {
        None => None,
        Some((provider, model)) => if trim(provider).len() > 0 && trim(model).len() > 0 {
            Some((trim(provider), trim(model)))
        } else {
            None
        },
    }
}

pub open spec fn alias_view(r: Option<RouteAlias>) -> Option<(Seq<char>, Seq<char>)> {
    match r {
        Some(a) => Some((a.provider_key@, a.upstream_model@)),
        None => None,
    }
}

/// Reads a selector.
pub fn parse_alias(alias: &str) -> (r: Option<RouteAlias>)
    ensures
        alias_view(r) == alias_parts(alias@),
{
    match split_once(trimmed(alias).as_str(), '/') {
        None => None,
        Some((provider, model)) => {
            let provider_key = trimmed(provider.as_str());
            let upstream_model = trimmed(model.as_str());
            if provider_key.as_str().is_empty() || upstream_model.as_str().is_empty() {
                None
            } else {
                Some(RouteAlias { provider_key, upstream_model })
            }
        },
    }
}

/// The bytes that stand for themselves in a selector: letters, digits, `-`, `_` and `.`.
pub open spec fn plain_byte(b: u8) -> bool {
    48 <= b <= 57 || 65 <= b <= 90 || 97 <= b <= 122 || b == 45 || b == 95 || b == 46
}

pub open spec fn hex_char(n: int) -> char {
    if n < 10 {
        (n + 48) as u8 as char
    } else {
        (n + 55) as u8 as char
    }
}

/// One byte of a route's id in a selector.
pub open spec fn encoded_byte(b: u8) -> Seq<char> {
    if plain_byte(b) {
        seq![b as char]
    } else {
        seq!['%', hex_char(b as int / 16), hex_char(b as int % 16)]
    }
}

/// Bytes of a route's id in a selector.
pub open spec fn encoded_bytes(bytes: Seq<u8>) -> Seq<char>
    decreases bytes.len(),
{
    if bytes.len() == 0 {
        Seq::empty()
    } else {
        encoded_bytes(bytes.drop_last()) + encoded_byte(bytes.last())
    }
}

/// A route's id in a selector: its UTF-8 bytes, escaped where they are not plain.
pub open spec fn encoded(id: Seq<char>) -> Seq<char> {
    encoded_bytes(encode_utf8(trim(id)))
}

fn hex_digit(n: u8) -> (r: char)
    requires
        n < 16,
    ensures
        r == hex_char(n as int),
{
    if n < 10 {
        (n + 48) as char
    } else {
        (n + 55) as char
    }
}

fn encode_alias_component(value: &str) -> (r: String)
    ensures
        r@ == encoded(value@),
{
    let t = trimmed(value);
    let bytes = t.as_str().as_bytes();
    let ghost all = encode_utf8(trim(value@));
    let mut out = String::new();
    let mut i: usize = 0;
    proof {
        assert(out@ =~= encoded_bytes(all.subrange(0, 0)));
    }
    while i < bytes.len()
        invariant
            i <= bytes.len(),
            bytes@ == all,
            out@ == encoded_bytes(all.subrange(0, i as int)),
        decreases bytes.len() - i,
    {
        let b: u8 = bytes[i];
        let ghost before = out@;
        proof {
            assert(all.subrange(0, i + 1).drop_last() =~= all.subrange(0, i as int));
            assert(all.subrange(0, i + 1).last() == b);
        }
        if (48 <= b && b <= 57) || (65 <= b && b <= 90) || (97 <= b && b <= 122) || b == 45 || b
            == 95 || b == 46 {
            out.push(b as char);
        } else {
            out.push('%');
            out.push(hex_digit(b / 16));
            out.push(hex_digit(b % 16));
        }
        proof {
            assert(out@ =~= before + encoded_byte(b));
        }
        i = i + 1;
    }
    proof {
        assert(all.subrange(0, i as int) =~= all);
    }
    out
}

/// The selector of a model on a route.
pub open spec fn alias_of(provider_id: Seq<char>, model: Seq<char>) -> Seq<char> {
    encoded(provider_id) + "/"@ + trim(model)
}

/// Makes the selector of a model on a route.
pub fn model_alias(provider_id: &str, model: &str) -> (r: String)
    ensures
        r@ == alias_of(provider_id@, model@),
{
    cat3(encode_alias_component(provider_id).as_str(), "/", trimmed(model).as_str())
}

/// The ids without repetition: each model once, with its first spelling.
pub open spec fn deduped(models: Seq<Seq<char>>) -> Seq<Seq<char>>
    decreases models.len(),
{
    if models.len() == 0 {
        Seq::empty()
    } else {
        let rest = deduped(models.drop_last());
        let model = trim(models.last());
        if model.len() == 0 || has_model(rest, model) {
            rest
        } else {
            rest.push(model)
        }
    }
}

/// Some id in the list is that of this model.
pub open spec fn has_model(models: Seq<Seq<char>>, model: Seq<char>) -> bool {
    exists|i: int| 0 <= i < models.len() && model_key(#[trigger] models[i]) == model_key(model)
}

/// Whether some id in the list is that of this model.
pub fn list_has_model(models: &Vec<String>, model: &str) -> (r: bool)
    ensures
        r == has_model(texts(models@), model@),
{
    let mut i: usize = 0;
    while i < models.len()
        invariant
            i <= models.len(),
            forall|j: int| 0 <= j < i ==> model_key(#[trigger] texts(models@)[j]) != model_key(model@),
        decreases models.len() - i,
    {
        if equal(models[i].as_str(), model) {
            proof {
                assert(model_key(texts(models@)[i as int]) == model_key(model@));
            }
            return true;
        }
        i = i + 1;
    }
    false
}

/// Drops repetitions from a list of ids.
pub fn dedupe_preserving_first(models: &Vec<String>) -> (r: Vec<String>)
    ensures
        texts(r@) == deduped(texts(models@)),
{
    let ghost all = texts(models@);
    let mut out: Vec<String> = Vec::new();
    let mut i: usize = 0;
    proof {
        assert(texts(out@) =~= deduped(all.subrange(0, 0)));
    }
    while i < models.len()
        invariant
            i <= models.len(),
            all == texts(models@),
            texts(out@) == deduped(all.subrange(0, i as int)),
        decreases models.len() - i,
    {
        proof {
            assert(all.subrange(0, i + 1).drop_last() =~= all.subrange(0, i as int));
            assert(all.subrange(0, i + 1).last() == models@[i as int]@);
        }
        let model = trimmed(models[i].as_str());
        if !model.as_str().is_empty() && !list_has_model(&out, model.as_str()) {
            proof {
                texts_push(out@, model);
            }
            out.push(model);
        }
        i = i + 1;
    }
    proof {
        assert(all.subrange(0, i as int) =~= all);
    }
    out
}

/// What came out lists each model once and no empty id, and every id that went in is in it.
pub proof fn deduped_lists_each_model_once(models: Seq<Seq<char>>)
    ensures
        forall|i: int, j: int|
            0 <= i < j < deduped(models).len() ==> model_key(#[trigger] deduped(models)[i])
                != model_key(#[trigger] deduped(models)[j]),
        forall|i: int|
            0 <= i < deduped(models).len() ==> (#[trigger] deduped(models)[i]).len() > 0,
        forall|k: int|
            0 <= k < models.len() && trim(#[trigger] models[k]).len() > 0 ==> has_model(
                deduped(models),
                trim(models[k]),
            ),
    decreases models.len(),
{
    if models.len() > 0 {
        let before = models.drop_last();
        let rest = deduped(before);
        deduped_lists_each_model_once(before);
        let after = deduped(models);
        let model = trim(models.last());
        assert forall|k: int|
            0 <= k < models.len() && trim(#[trigger] models[k]).len() > 0 implies has_model(
            after,
            trim(models[k]),
        ) by {
            if k < before.len() {
                assert(before[k] == models[k]);
                let w = choose|w: int|
                    0 <= w < rest.len() && model_key(#[trigger] rest[w]) == model_key(
                        trim(models[k]),
                    );
                assert(after[w] == rest[w]);
            } else if !has_model(rest, model) {
                assert(after[rest.len() as int] == model);
            } else {
                let w = choose|w: int|
                    0 <= w < rest.len() && model_key(#[trigger] rest[w]) == model_key(model);
                assert(after[w] == rest[w]);
            }
        }
        if model.len() > 0 && !has_model(rest, model) {
            assert forall|i: int, j: int| 0 <= i < j < after.len() implies model_key(
                #[trigger] after[i],
            ) != model_key(#[trigger] after[j]) by {
                assert(after[i] == rest[i]);
                if j < rest.len() {
                    assert(after[j] == rest[j]);
                }
            }
        }
    }
}

proof fn lemma_encoded_plain(bytes: Seq<u8>)
    ensures
        forall|i: int| 0 <= i < encoded_bytes(bytes).len() ==> {
            let c = #[trigger] encoded_bytes(bytes)[i];
            c != '/' && !is_white(c)
        },
        bytes.len() > 0 ==> encoded_bytes(bytes).len() > 0,
    decreases bytes.len(),
{
    if bytes.len() > 0 {
        lemma_encoded_plain(bytes.drop_last());
        let head = encoded_bytes(bytes.drop_last());
        let all = encoded_bytes(bytes);
        assert forall|i: int| 0 <= i < all.len() implies {
            let c = #[trigger] all[i];
            c != '/' && !is_white(c)
        } by {
            if i < head.len() {
                assert(all[i] == head[i]);
            } else {
                assert(all[i] == encoded_byte(bytes.last())[i - head.len()]);
            }
        }
    }
}

/// A route's part of a selector holds no slash and no white space, so the first slash of a
/// selector ends it, whatever slashes the model's id holds.
pub proof fn a_route_part_holds_no_slash(provider_id: Seq<char>)
    ensures
        forall|i: int| 0 <= i < encoded(provider_id).len() ==> {
            let c = #[trigger] encoded(provider_id)[i];
            c != '/' && !is_white(c)
        },
{
    lemma_encoded_plain(encode_utf8(trim(provider_id)));
}

proof fn lemma_encode_nonempty(s: Seq<char>)
    requires
        s.len() > 0,
    ensures
        encode_utf8(s).len() > 0,
{
    reveal_with_fuel(encode_utf8, 2);
}

/// A selector that was made is read back: the route's part, and the model's id in full.
pub proof fn a_selector_is_read_back(provider_id: Seq<char>, model: Seq<char>)
    requires
        trim(provider_id).len() > 0,
        trim(model).len() > 0,
    ensures
        alias_parts(alias_of(provider_id, model)) == Some((encoded(provider_id), trim(model))),
{
    let a = encoded(provider_id);
    let b = trim(model);
    let s = alias_of(provider_id, model);
    lemma_encoded_plain(encode_utf8(trim(provider_id)));
    lemma_encode_nonempty(trim(provider_id));
    trim_leaves_clean_ends(model);
    reveal_strlit("/");
    assert("/"@ =~= seq!['/']);
    assert(s[0] == a[0]);
    assert(s[s.len() - 1] == b[b.len() - 1]);
    trim_of_clean(s);
    cut_at_first(a, '/', b);
    trim_of_clean(a);
}

} // verus!
