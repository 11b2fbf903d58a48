//! Fresh identifiers.
use crate::digest::{hex_text, hex_text_length, to_hex};
use crate::text::{cat2, cat5, starts_with};
use vstd::prelude::*;
use vstd::string::*;

verus! {

/// `uuid::Uuid::new_v4`: sixteen bytes. The high half of byte 6 is 4, and the two high bits of byte
/// 8 are 2; all else is left to chance.
#[verifier::external_body]
pub(crate) fn random_uuid() -> (r: Vec<u8>)
    ensures
        r.len() == 16,
        r@[6] as int / 16 == 4,
        r@[8] as int / 64 == 2,
{
    uuid::Uuid::new_v4().into_bytes().to_vec()
}

/// The written form of an identifier of sixteen bytes: hexadecimal digits in five groups.
pub open spec fn hyphenated(bytes: Seq<u8>) -> Seq<char> {
    hex_text(bytes.subrange(0, 4)) + "-"@ + hex_text(bytes.subrange(4, 6)) + "-"@ + hex_text(
        bytes.subrange(6, 8),
    ) + "-"@ + hex_text(bytes.subrange(8, 10)) + "-"@ + hex_text(bytes.subrange(10, 16))
}

fn hex_part(bytes: &Vec<u8>, from: usize, to: usize) -> (r: String)
    requires
        from <= to <= bytes.len(),
    ensures
        r@ == hex_text(bytes@.subrange(from as int, to as int)),
        r@.len() == 2 * (to - from),
{
    let mut part: Vec<u8> = Vec::new();
    let mut i: usize = from;
    while i < to
        invariant
            from <= i <= to <= bytes.len(),
            part@ == bytes@.subrange(from as int, i as int),
        decreases to - i,
    {
        part.push(bytes[i]);
        i = i + 1;
        proof {
            assert(part@ =~= bytes@.subrange(from as int, i as int));
        }
    }
    proof {
        hex_text_length(part@);
    }
    to_hex(&part)
}

/// Writes out an identifier of sixteen bytes.
pub fn hyphenated_text(bytes: &Vec<u8>) -> (r: String)
    requires
        bytes.len() == 16,
    ensures
        r@ == hyphenated(bytes@),
        r@.len() == 36,
{
    let front = cat5(
        hex_part(bytes, 0, 4).as_str(),
        "-",
        hex_part(bytes, 4, 6).as_str(),
        "-",
        hex_part(bytes, 6, 8).as_str(),
    );
    proof {
        reveal_strlit("-");
    }
    cat5(
        front.as_str(),
        "-",
        hex_part(bytes, 8, 10).as_str(),
        "-",
        hex_part(bytes, 10, 16).as_str(),
    )
}

/// The bytes of a random identifier: the high half of byte 6 is 4, and the two high bits of byte 8
/// are 2.
pub open spec fn is_random_id(bytes: Seq<u8>) -> bool {
    bytes.len() == 16 && bytes[6] as int / 16 == 4 && bytes[8] as int / 64 == 2
}

/// An identifier made of a prefix and a random part.
pub open spec fn has_form(id: Seq<char>, prefix: Seq<char>) -> bool {
    exists|bytes: Seq<u8>|
        is_random_id(bytes) && id == prefix + #[trigger] hyphenated(bytes)
}

/// What an identifier of that form looks like.
pub proof fn form_has_length(id: Seq<char>, prefix: Seq<char>)
    requires
        has_form(id, prefix),
    ensures
        starts_with(id, prefix),
        id.len() == prefix.len() + 36,
{
    let bytes = choose|bytes: Seq<u8>|
        is_random_id(bytes) && id == prefix + #[trigger] hyphenated(bytes);
    reveal_strlit("-");
    hex_text_length(bytes.subrange(0, 4));
    hex_text_length(bytes.subrange(4, 6));
    hex_text_length(bytes.subrange(6, 8));
    hex_text_length(bytes.subrange(8, 10));
    hex_text_length(bytes.subrange(10, 16));
    assert(id.subrange(0, prefix.len() as int) =~= prefix);
}

/// A fresh identifier with a prefix.
pub fn fresh_id(prefix: &str) -> (r: String)
    ensures
        has_form(r@, prefix@),
{
    let bytes = random_uuid();
    let tail = hyphenated_text(&bytes);
    proof {
        assert(prefix@ + hyphenated(bytes@) == prefix@ + tail@);
    }
    cat2(prefix, tail.as_str())
}

/// As many fresh identifiers as asked for.
pub fn fresh_ids(prefix: &str, count: usize) -> (r: Vec<String>)
    ensures
        r.len() == count,
        forall|i: int| 0 <= i < r.len() ==> has_form(#[trigger] r@[i]@, prefix@),
{
    let mut ids: Vec<String> = Vec::new();
    while ids.len() < count
        invariant
            ids.len() <= count,
            forall|i: int| 0 <= i < ids.len() ==> has_form(#[trigger] ids@[i]@, prefix@),
        decreases count - ids.len(),
    {
        ids.push(fresh_id(prefix));
    }
    ids
}

/// A fresh identifier of 32 hexadecimal digits.
pub fn fresh_plain_id() -> (r: String)
    ensures
        r@.len() == 32,
        exists|bytes: Seq<u8>| is_random_id(bytes) && r@ == #[trigger] hex_text(bytes),
{
    let bytes = random_uuid();
    proof {
        hex_text_length(bytes@);
    }
    to_hex(&bytes)
}

} // verus!
