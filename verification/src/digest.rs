//! SHA-256 fingerprints.
use crate::text::head;
use vstd::prelude::*;
use vstd::string::*;
use vstd::utf8::*;

verus! {

/// The SHA-256 digest of bytes.
pub uninterp spec fn sha256_of(bytes: Seq<u8>) -> Seq<u8>;

/// `sha2::Sha256::digest`: 32 bytes that depend on the given bytes alone.
#[verifier::external_body]
fn sha256_digest(bytes: &[u8]) -> (r: Vec<u8>)
    ensures
        r@ == sha256_of(bytes@),
        r@.len() == 32,
{
    <sha2::Sha256 as sha2::Digest>::digest(bytes).to_vec()
}

/// A digest.
#[derive(Debug)]
pub struct Fingerprint {
    pub bytes: Vec<u8>,
}

impl View for Fingerprint {
    type V = Seq<u8>;

    open spec fn view(&self) -> Seq<u8> {
        self.bytes@
    }
}

/// The digest of bytes.
pub fn sha256(bytes: &Vec<u8>) -> (r: Fingerprint)
    ensures
        r@ == sha256_of(bytes@),
        r@.len() == 32,
{
    Fingerprint { bytes: sha256_digest(bytes.as_slice()) }
}

impl Fingerprint {
    pub fn same(&self, other: &Fingerprint) -> (r: bool)
        ensures
            r == (self@ == other@),
    {
        if self.bytes.len() != other.bytes.len() {
            return false;
        }
        let mut i: usize = 0;
        while i < self.bytes.len()
            invariant
                i <= self.bytes.len(),
                self.bytes.len() == other.bytes.len(),
                forall|j: int| 0 <= j < i ==> self.bytes@[j] == other.bytes@[j],
            decreases self.bytes.len() - i,
        {
            if self.bytes[i] != other.bytes[i] {
                return false;
            }
            i = i + 1;
        }
        proof {
            assert(self@ =~= other@);
        }
        true
    }

    pub fn copy(&self) -> (r: Fingerprint)
        ensures
            r@ == self@,
    {
        let mut bytes: Vec<u8> = Vec::new();
        add_all(&mut bytes, self.bytes.as_slice());
        proof {
            assert(bytes@ =~= self@);
        }
        Fingerprint { bytes }
    }
}

/// A number in eight bytes, the largest place first.
pub open spec fn eight_bytes(n: u64) -> Seq<u8> {
    seq![
        (n / 0x100_0000_0000_0000) as u8,
        (n / 0x1_0000_0000_0000 % 256) as u8,
        (n / 0x100_0000_0000 % 256) as u8,
        (n / 0x1_0000_0000 % 256) as u8,
        (n / 0x100_0000 % 256) as u8,
        (n / 0x1_0000 % 256) as u8,
        (n / 0x100 % 256) as u8,
        (n % 256) as u8,
    ]
}

/// Bytes with their number in front of them.
pub open spec fn with_length(bytes: Seq<u8>) -> Seq<u8> {
    eight_bytes(bytes.len() as u64) + bytes
}

/// Puts bytes at the end.
pub fn add_all(out: &mut Vec<u8>, bytes: &[u8])
    ensures
        final(out)@ == old(out)@ + bytes@,
{
    let ghost before = out@;
    let mut i: usize = 0;
    proof {
        assert(before + bytes@.subrange(0, 0) =~= before);
    }
    while i < bytes.len()
        invariant
            i <= bytes.len(),
            before == old(out)@,
            out@ == before + bytes@.subrange(0, i as int),
        decreases bytes.len() - i,
    {
        out.push(bytes[i]);
        i = i + 1;
        proof {
            assert(out@ =~= before + bytes@.subrange(0, i as int));
        }
    }
    proof {
        assert(bytes@.subrange(0, i as int) =~= bytes@);
    }
}

/// Puts bytes at the end, with their number in front of them.
pub fn update_length_prefixed_digest(out: &mut Vec<u8>, value: &[u8])
    ensures
        final(out)@ == old(out)@ + with_length(value@),
{
    let n: u64 = value.len() as u64;
    let head: Vec<u8> = vec![
        (n / 0x100_0000_0000_0000) as u8,
        (n / 0x1_0000_0000_0000 % 256) as u8,
        (n / 0x100_0000_0000 % 256) as u8,
        (n / 0x1_0000_0000 % 256) as u8,
        (n / 0x100_0000 % 256) as u8,
        (n / 0x1_0000 % 256) as u8,
        (n / 0x100 % 256) as u8,
        (n % 256) as u8,
    ];
    proof {
        assert(head@ =~= eight_bytes(n));
    }
    let ghost before = out@;
    add_all(out, head.as_slice());
    add_all(out, value);
    proof {
        assert(out@ =~= before + with_length(value@));
    }
}

/// Puts a text's UTF-8 bytes at the end, with their number in front of them.
pub fn add_text(out: &mut Vec<u8>, text: &str)
    ensures
        final(out)@ == old(out)@ + with_length(encode_utf8(text@)),
{
    update_length_prefixed_digest(out, text.as_bytes());
}

/// Lower case hexadecimal digits of bytes.
pub open spec fn hex_text(bytes: Seq<u8>) -> Seq<char>
    decreases bytes.len(),
{
    if bytes.len() == 0 {
        Seq::empty()
    } else {
        hex_text(bytes.drop_last()).push(small_hex(bytes.last() as int / 16)).push(
            small_hex(bytes.last() as int % 16),
        )
    }
}

/// Each byte takes two digits.
pub proof fn hex_text_length(bytes: Seq<u8>)
    ensures
        hex_text(bytes).len() == 2 * bytes.len(),
    decreases bytes.len(),
{
    if bytes.len() > 0 {
        hex_text_length(bytes.drop_last());
    }
}

pub open spec fn small_hex(n: int) -> char {
    if n < 10 {
        (n + 48) as u8 as char
    } else {
        (n + 87) as u8 as char
    }
}

fn small_hex_digit(n: u8) -> (r: char)
    requires
        n < 16,
    ensures
        r == small_hex(n as int),
{
    if n < 10 {
        (n + 48) as char
    } else {
        (n + 87) as char
    }
}

/// Bytes in lower case hexadecimal digits.
pub fn to_hex(bytes: &Vec<u8>) -> (r: String)
    ensures
        r@ == hex_text(bytes@),
{
    let mut out = String::new();
    let mut i: usize = 0;
    proof {
        assert(out@ =~= hex_text(bytes@.subrange(0, 0)));
    }
    while i < bytes.len()
        invariant
            i <= bytes.len(),
            out@ == hex_text(bytes@.subrange(0, i as int)),
        decreases bytes.len() - i,
    {
        proof {
            assert(bytes@.subrange(0, i + 1).drop_last() =~= bytes@.subrange(0, i as int));
            assert(bytes@.subrange(0, i + 1).last() == bytes@[i as int]);
        }
        out.push(small_hex_digit(bytes[i] / 16));
        out.push(small_hex_digit(bytes[i] % 16));
        i = i + 1;
    }
    proof {
        assert(bytes@.subrange(0, i as int) =~= bytes@);
    }
    out
}

} // verus!
