//! How the messenger bot's client identifies itself. Login, sync and delivery send the same headers.
use crate::encoding::{base64_standard, encode_standard};
use crate::ids::random_uuid;
use crate::json::{Json, JsonV, text_view};
use crate::local_router::request_meta::{header_value_is_valid, sendable};
use crate::text::{
    Sep, cat2, chars_of, decimal_text, digits, is_digit, pairs_view, parse_number, parsed_number,
    split, split_text, texts, trim, trimmed,
};
use vstd::prelude::*;
use vstd::string::*;

verus! {

/// The number that the first four of some bytes make, the first the highest.
pub open spec fn leading_number(bytes: Seq<u8>) -> int {
    ((bytes[0] * 256 + bytes[1]) * 256 + bytes[2]) * 256 + bytes[3]
}

/// The identifier that random bytes give a request.
pub open spec fn uin_of(bytes: Seq<u8>) -> Seq<char> {
    base64_standard(vstd::utf8::encode_utf8(digits(leading_number(bytes) as nat)))
}

/// The identifier that random bytes give a request.
pub fn wechat_uin(bytes: &Vec<u8>) -> (r: String)
    requires
        bytes.len() >= 4,
    ensures
        r@ == uin_of(bytes@),
{
    let a = bytes[0] as u64;
    let b = bytes[1] as u64;
    let c = bytes[2] as u64;
    let d = bytes[3] as u64;
    let number = ((a * 256 + b) * 256 + c) * 256 + d;
    let text = decimal_text(number);
    proof {
        assert(pow10(10) == 10_000_000_000) by {
            reveal_with_fuel(pow10, 11);
        }
        lemma_digits_short(number as nat, 10);
        lemma_ascii_length(text@);
    }
    encode_standard(text.as_str().as_bytes())
}

/// A fresh identifier for a request.
pub fn random_wechat_uin() -> (r: String)
    ensures
        exists|bytes: Seq<u8>| bytes.len() == 16 && r@ == #[trigger] uin_of(bytes),
{
    let bytes = random_uuid();
    wechat_uin(&bytes)
}

/// A part of a version, as one byte; 0 where it is missing or no number.
pub open spec fn version_part(parts: Seq<Seq<char>>, i: int) -> int {
    if i < parts.len() {
        match parsed_number(parts[i], 0xffff_ffff) {
            Some(n) => n as int % 256,
            None => 0,
        }
    } else {
        0
    }
}

/// A version as one number, a byte for each of its first three parts.
pub open spec fn version_number(version: Seq<char>) -> int {
    let parts = split(version, Sep::Char('.'));
    version_part(parts, 0) * 65536 + version_part(parts, 1) * 256 + version_part(parts, 2)
}

fn part_of(parts: &Vec<String>, i: usize) -> (r: u64)
    ensures
        r == version_part(texts(parts@), i as int),
        r < 256,
{
    if i < parts.len() {
        match parse_number(parts[i].as_str(), 0xffff_ffff) {
            Some(n) => n % 256,
            None => 0,
        }
    } else {
        0
    }
}

/// A version as one number, written out.
pub fn client_version(version: &str) -> (r: String)
    ensures
        r@ == digits(version_number(version@) as nat),
{
    let parts = split_text(version, Sep::Char('.'));
    decimal_text(part_of(&parts, 0) * 65536 + part_of(&parts, 1) * 256 + part_of(&parts, 2))
}

/// What each request says of the client.
pub fn base_info(version: &str) -> (r: Json)
    ensures
        r@ == JsonV::obj().with("channel_version"@, JsonV::Str(version@)).with(
            "bot_agent"@,
            JsonV::Str("Codey/"@ + version@),
        ),
{
    Json::obj().with("channel_version", Json::str(version)).with(
        "bot_agent",
        Json::string(cat2("Codey/", version)),
    )
}

/// A key that can stand in a header: without control characters, and in ASCII.
pub open spec fn valid_token(token: Seq<char>) -> bool {
    sendable("Bearer "@ + token) && forall|i: int|
        0 <= i < token.len() ==> (#[trigger] token[i]) as u32 <= 127
}

fn is_ascii_text(text: &str) -> (r: bool)
    ensures
        r == forall|i: int| 0 <= i < text@.len() ==> (#[trigger] text@[i]) as u32 <= 127,
{
    let v = chars_of(text);
    let mut i: usize = 0;
    while i < v.len()
        invariant
            i <= v.len(),
            v@ == text@,
            forall|j: int| 0 <= j < i ==> (#[trigger] text@[j]) as u32 <= 127,
        decreases v.len() - i,
    {
        if v[i] as u32 > 127 {
            proof {
                let _ = text@[i as int];
            }
            return false;
        }
        i = i + 1;
    }
    true
}

/// The headers of a request. A key is sent along where there is one; one that cannot stand in a
/// header is an error.
pub open spec fn request_headers(
    token: Option<Seq<char>>,
    version: Seq<char>,
    uin: Seq<char>,
) -> Result<Seq<(Seq<char>, Seq<char>)>, Seq<char>> {
    let plain = seq![
        ("authorizationtype"@, "ilink_bot_token"@),
        ("x-wechat-uin"@, uin),
        ("ilink-app-id"@, "bot"@),
        ("ilink-app-clientversion"@, digits(version_number(version) as nat)),
    ];
    match token {
        Some(t) => if trim(t).len() == 0 {
            Ok(plain)
        } else if valid_token(t) {
            Ok(plain.push(("authorization"@, "Bearer "@ + t)))
        } else {
            Err("微信 ClawBot 令牌包含非法字符，请重新扫码登录"@)
        },
        None => Ok(plain),
    }
}

pub open spec fn headers_result(r: Result<Vec<(String, String)>, String>) -> Result<
    Seq<(Seq<char>, Seq<char>)>,
    Seq<char>,
> {
    match r {
        Ok(v) => Ok(pairs_view(v@)),
        Err(e) => Err(e@),
    }
}

/// The headers of a request with a given identifier.
pub fn headers_with(token: Option<&str>, version: &str, uin: String) -> (r: Result<
    Vec<(String, String)>,
    String,
>)
    ensures
        headers_result(r) == request_headers(text_view(token), version@, uin@),
{
    let mut out: Vec<(String, String)> = Vec::new();
    out.push(("authorizationtype".to_owned(), "ilink_bot_token".to_owned()));
    out.push(("x-wechat-uin".to_owned(), uin));
    out.push(("ilink-app-id".to_owned(), "bot".to_owned()));
    out.push(("ilink-app-clientversion".to_owned(), client_version(version)));
    let ghost plain = seq![
        ("authorizationtype"@, "ilink_bot_token"@),
        ("x-wechat-uin"@, uin@),
        ("ilink-app-id"@, "bot"@),
        ("ilink-app-clientversion"@, digits(version_number(version@) as nat)),
    ];
    proof {
        assert(pairs_view(out@) =~= plain);
    }
    if let Some(t) = token {
        if !trimmed(t).as_str().is_empty() {
            let value = cat2("Bearer ", t);
            if !header_value_is_valid(value.as_str()) || !is_ascii_text(t) {
                return Err("微信 ClawBot 令牌包含非法字符，请重新扫码登录".to_owned());
            }
            out.push(("authorization".to_owned(), value));
            proof {
                assert(pairs_view(out@) =~= plain.push(("authorization"@, value@)));
            }
        }
    }
    Ok(out)
}

/// The headers of a request.
pub fn headers(token: Option<&str>, version: &str) -> (r: Result<Vec<(String, String)>, String>)
    ensures
        exists|bytes: Seq<u8>|
            bytes.len() == 16 && headers_result(r) == request_headers(
                text_view(token),
                version@,
                #[trigger] uin_of(bytes),
            ),
{
    headers_with(token, version, random_wechat_uin())
}

proof fn lemma_digits_short(n: nat, k: nat)
    requires
        n < pow10(k),
        k >= 1,
    ensures
        digits(n).len() <= k,
        forall|i: int| 0 <= i < digits(n).len() ==> is_digit(#[trigger] digits(n)[i]),
    decreases k,
{
    reveal_with_fuel(pow10, 2);
    if n >= 10 {
        assert(k >= 2);
        lemma_digits_short(n / 10, (k - 1) as nat);
    }
}

pub open spec fn pow10(k: nat) -> nat
    decreases k,
{
    if k == 0 {
        1
    } else {
        10 * pow10((k - 1) as nat)
    }
}

proof fn lemma_ascii_length(s: Seq<char>)
    requires
        forall|i: int| 0 <= i < s.len() ==> is_digit(#[trigger] s[i]),
    ensures
        vstd::utf8::encode_utf8(s).len() == s.len(),
{
    vstd::utf8::is_ascii_chars_encode_utf8(s);
}

} // verus!
