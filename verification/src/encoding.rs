//! Hashing and textual encodings used to name work and stored objects.
//!
//! The digests and encodings themselves are computed by the `multihash`,
//! `bs58`, `cid` and `hamming` crates; this module states what is known of
//! their results and builds the identifiers of the protocol from them.

use vstd::prelude::*;

verus! {

broadcast use vstd::string::is_ascii_spec_bytes;

/// Multicodec code of raw binary content.
pub const RAW_CODEC: u64 = 0x55;

/// Multihash code of SHA2-256.
pub const SHA2_256_CODE: u64 = 0x12;

/// The SHA2-256 digest of `data`.
pub uninterp spec fn sha2_256_digest(data: Seq<u8>) -> Seq<u8>;

/// The Base58 text (Bitcoin alphabet) of `data`.
pub uninterp spec fn base58_text(data: Seq<u8>) -> Seq<char>;

/// The multibase text of the version 1 content identifier with content codec `codec`
/// whose multihash has code `hash_code` and digest `digest`.
pub uninterp spec fn cid_v1_text(codec: u64, hash_code: u64, digest: Seq<u8>) -> Seq<char>;

/// A character of the Bitcoin Base58 alphabet
/// `123456789ABCDEFGHJKLMNPQRSTUVWXYZabcdefghijkmnopqrstuvwxyz`.
pub open spec fn is_base58_char(c: char) -> bool {
    ||| '1' <= c <= '9'
    ||| 'A' <= c <= 'H'
    ||| 'J' <= c <= 'N'
    ||| 'P' <= c <= 'Z'
    ||| 'a' <= c <= 'k'
    ||| 'm' <= c <= 'z'
}

/// Number of bits set in `b`.
pub open spec fn popcount(b: u8) -> nat
    decreases b,
{
    if b == 0 {
        0
    } else {
        (b % 2) as nat + popcount(b / 2)
    }
}

/// Number of bit positions in which the equally long `x` and `y` differ.
pub open spec fn hamming_distance(x: Seq<u8>, y: Seq<u8>) -> nat
    decreases x.len(),
{
    if x.len() == 0 {
        0
    } else {
        popcount(x.last() ^ y[x.len() - 1]) + hamming_distance(x.drop_last(), y.drop_last())
    }
}

/// Computes the digest with `<multihash::Sha2_256 as multihash::Hasher>::digest`.
/// Trusted: the result is the SHA2-256 digest of `data` (named, not computed here),
/// and it is 32 bytes long, the digest size that the hasher declares.
#[verifier::external_body]
pub(crate) fn sha2_256(data: &[u8]) -> (r: Vec<u8>)
    ensures
        r@ == sha2_256_digest(data@),
        r@.len() == 32,
{
    <multihash::Sha2_256 as multihash::Hasher>::digest(data).as_ref().to_vec()
}

/// Encodes with `bs58::encode(..).into_string()`, which uses the Bitcoin alphabet.
/// Trusted: the result is the Base58 text of `data` (named), and every character
/// of it belongs to that alphabet.
#[verifier::external_body]
pub(crate) fn bs58_encode(data: &[u8]) -> (r: String)
    ensures
        r@ == base58_text(data@),
        forall|i: int| 0 <= i < r@.len() ==> is_base58_char(#[trigger] r@[i]),
{
    bs58::encode(data).into_string()
}

/// Computes `hamming::distance(x, y)`, which the crate documents as the number of
/// bits in which `x` and `y` differ and which panics unless they are equally long.
#[verifier::external_body]
pub(crate) fn hamming(x: &[u8], y: &[u8]) -> (d: u64)
    requires
        x@.len() == y@.len(),
    ensures
        d == hamming_distance(x@, y@),
{
    hamming::distance(x, y)
}

/// Formats the identifier built by `cid::Cid::new_v1(codec, hash)`, where `hash` is
/// `multihash::MultihashGeneric::wrap(hash_code, digest)`, with its `Display`
/// (multibase) form. `wrap` fails only on digests over 64 bytes, which `requires`
/// leaves out. Trusted: the result is that text (named).
#[verifier::external_body]
pub(crate) fn cid_v1_string(codec: u64, hash_code: u64, digest: &[u8]) -> (r: String)
    requires
        digest@.len() <= 64,
    ensures
        r@ == cid_v1_text(codec, hash_code, digest@),
{
    cid::Cid::new_v1(codec, multihash::Multihash::wrap(hash_code, digest).unwrap()).to_string()
}

/// The text form (`Display`) of the content identifier that `cid::Cid::from_str`
/// reads from `text`, or `None` where `text` is no content identifier.
pub uninterp spec fn cid_canonical_text(text: Seq<char>) -> Option<Seq<char>>;

/// The binary form (`to_bytes`) of the content identifier that `cid::Cid::from_str`
/// reads from `text`, or `None` where `text` is no content identifier.
pub uninterp spec fn cid_binary(text: Seq<char>) -> Option<Seq<u8>>;

/// Reads `text` with `cid::Cid::from_str` and formats the identifier with its
/// `Display`. Trusted: the result is that text (named), and `None` exactly where
/// `from_str` fails.
#[verifier::external_body]
pub(crate) fn cid_canonical(text: &str) -> (r: Option<String>)
    ensures
        r.is_some() == cid_canonical_text(text@).is_some(),
        r matches Some(c) ==> c@ == cid_canonical_text(text@)->Some_0,
{
    match <cid::Cid as std::str::FromStr>::from_str(text) {
        Ok(c) => Some(c.to_string()),
        Err(_) => None,
    }
}

/// Reads `text` with `cid::Cid::from_str` and gives the identifier's `to_bytes`.
/// Trusted: the result is those bytes (named), and `None` exactly where `from_str`
/// fails, the same inputs on which [`cid_canonical`] fails.
#[verifier::external_body]
pub(crate) fn cid_bytes(text: &str) -> (r: Option<Vec<u8>>)
    ensures
        r.is_some() == cid_binary(text@).is_some(),
        r.is_some() == cid_canonical_text(text@).is_some(),
        r matches Some(b) ==> b@ == cid_binary(text@)->Some_0,
{
    match <cid::Cid as std::str::FromStr>::from_str(text) {
        Ok(c) => Some(c.to_bytes()),
        Err(_) => None,
    }
}

/// Whether every text of `s` is a content identifier.
pub open spec fn all_cids(s: Seq<Seq<char>>) -> bool {
    forall|i: int| 0 <= i < s.len() ==> (#[trigger] cid_binary(s[i])).is_some()
}

/// The binary forms of the content identifiers written in `s`.
pub open spec fn binaries(s: Seq<Seq<char>>) -> Seq<Seq<u8>> {
    s.map_values(|t: Seq<char>| cid_binary(t)->Some_0)
}

/// Identifier under which a node asks the network for the computation of `method`
/// on `args` (content identifiers in text form): the Base58 text of [`exec_id`] of
/// their binary forms. `None` exactly where one of them is no content identifier.
pub fn node_exec_id(method: &String, args: &Vec<String>) -> (r: Option<String>)
    ensures
        r.is_some() == (cid_binary(method@).is_some() && all_cids(args.deep_view())),
        r matches Some(id) ==> id@ == base58_text(sha2_256_digest(exec_id_input(
            cid_binary(method@)->Some_0,
            binaries(args.deep_view()),
        ))),
{
    let m = match cid_bytes(method.as_str()) {
        Some(b) => b,
        None => return None,
    };
    let mut bins: Vec<Vec<u8>> = Vec::new();
    let mut i: usize = 0;
    while i < args.len()
        invariant
            i <= args@.len(),
            bins@.len() == i,
            forall|k: int| 0 <= k < i ==> (#[trigger] cid_binary(args.deep_view()[k])).is_some(),
            forall|k: int| 0 <= k < i ==> (#[trigger] bins@[k])@ == cid_binary(args.deep_view()[k])->Some_0,
        decreases args@.len() - i,
    {
        proof {
            assert(args.deep_view()[i as int] == args@[i as int]@);
        }
        match cid_bytes(args[i].as_str()) {
            Some(b) => bins.push(b),
            None => {
                proof {
                    assert(cid_binary(args.deep_view()[i as int]).is_none());
                }
                return None;
            },
        }
        i = i + 1;
    }
    proof {
        assert(bins@.map_values(|a: Vec<u8>| a@) =~= binaries(args.deep_view()));
    }
    let id = exec_id(m.as_slice(), bins.as_slice());
    Some(bs58_encode(id.as_slice()))
}

/// Concatenation of all byte strings of `parts`, in order.
pub open spec fn concat_bytes(parts: Seq<Seq<u8>>) -> Seq<u8>
    decreases parts.len(),
{
    if parts.len() == 0 {
        Seq::empty()
    } else {
        concat_bytes(parts.drop_last()) + parts.last()
    }
}

/// The bytes hashed to identify a computation: `method` followed by every argument.
pub open spec fn exec_id_input(method: Seq<u8>, args: Seq<Seq<u8>>) -> Seq<u8> {
    method + concat_bytes(args)
}

/// UTF-8 bytes of every string of `s`.
pub open spec fn utf8_all(s: Seq<Seq<char>>) -> Seq<Seq<u8>> {
    s.map_values(|c: Seq<char>| vstd::utf8::encode_utf8(c))
}

/// Identifier of the computation of `method` on `args` (both given as text):
/// the Base58 text of the SHA2-256 digest of their UTF-8 bytes, concatenated.
pub open spec fn work_id_spec(method: Seq<char>, args: Seq<Seq<char>>) -> Seq<char> {
    base58_text(sha2_256_digest(exec_id_input(vstd::utf8::encode_utf8(method), utf8_all(args))))
}

/// The content identifier (text form) of a raw block holding `data`: the version 1
/// identifier with the raw codec and the SHA2-256 multihash of `data`.
pub open spec fn raw_block_cid(data: Seq<u8>) -> Seq<char> {
    cid_v1_text(RAW_CODEC, SHA2_256_CODE, sha2_256_digest(data))
}

/// Appends all of `src` to `dst`.
fn append_bytes(dst: &mut Vec<u8>, src: &[u8])
    ensures
        final(dst)@ == old(dst)@ + src@,
{
    let mut i: usize = 0;
    while i < src.len()
        invariant
            i <= src@.len(),
            dst@ == old(dst)@ + src@.subrange(0, i as int),
        decreases src@.len() - i,
    {
        dst.push(src[i]);
        proof {
            assert(src@.subrange(0, i + 1) =~= src@.subrange(0, i as int).push(src@[i as int]));
        }
        i = i + 1;
    }
    proof {
        assert(src@.subrange(0, src@.len() as int) =~= src@);
    }
}

/// Base58 text (Bitcoin alphabet) of `d`.
pub fn base58(d: &[u8]) -> (r: String)
    ensures
        r@ == base58_text(d@),
{
    bs58_encode(d)
}

/// Identifier of the computation of `method` on `args`, each given by the bytes of
/// its content identifier: the SHA2-256 digest of all of them, concatenated.
pub fn exec_id(method: &[u8], args: &[Vec<u8>]) -> (r: Vec<u8>)
    ensures
        r@ == sha2_256_digest(exec_id_input(method@, args@.map_values(|a: Vec<u8>| a@))),
        r@.len() == 32,
{
    let mut input: Vec<u8> = Vec::new();
    append_bytes(&mut input, method);
    let ghost parts = args@.map_values(|a: Vec<u8>| a@);
    let mut i: usize = 0;
    while i < args.len()
        invariant
            i <= args@.len(),
            parts == args@.map_values(|a: Vec<u8>| a@),
            input@ == method@ + concat_bytes(parts.take(i as int)),
        decreases args@.len() - i,
    {
        append_bytes(&mut input, args[i].as_slice());
        proof {
            assert(parts.take(i + 1).drop_last() =~= parts.take(i as int));
        }
        i = i + 1;
    }
    proof {
        assert(parts.take(args@.len() as int) =~= parts);
    }
    sha2_256(input.as_slice())
}

/// Identifier of the computation of `method` on `args` (both content identifiers
/// in text form): the Base58 text of the SHA2-256 digest of their bytes, concatenated.
pub fn work_id(method: &String, args: &Vec<String>) -> (r: String)
    ensures
        r@ == work_id_spec(method@, args.deep_view()),
        forall|i: int| 0 <= i < r@.len() ==> is_base58_char(#[trigger] r@[i]),
{
    let mut input: Vec<u8> = Vec::new();
    append_bytes(&mut input, method.as_str().as_bytes());
    let ghost parts = utf8_all(args.deep_view());
    let mut i: usize = 0;
    while i < args.len()
        invariant
            i <= args@.len(),
            parts == utf8_all(args.deep_view()),
            input@ == vstd::utf8::encode_utf8(method@) + concat_bytes(parts.take(i as int)),
        decreases args@.len() - i,
    {
        append_bytes(&mut input, args[i].as_str().as_bytes());
        proof {
            assert(parts.take(i + 1).drop_last() =~= parts.take(i as int));
        }
        i = i + 1;
    }
    proof {
        assert(parts.take(args@.len() as int) =~= parts);
    }
    let digest = sha2_256(input.as_slice());
    bs58_encode(digest.as_slice())
}

/// A work's identifier depends on nothing but the bytes hashed for it: two
/// computations whose method and arguments give the same concatenated bytes have
/// the same identifier. (The converse would need the digest and the text encoding
/// to be free of collisions, which is not stated.)
pub proof fn law_work_id_depends_on_bytes(m1: Seq<char>, a1: Seq<Seq<char>>, m2: Seq<char>, a2: Seq<Seq<char>>)
    requires
        exec_id_input(vstd::utf8::encode_utf8(m1), utf8_all(a1)) == exec_id_input(vstd::utf8::encode_utf8(m2), utf8_all(a2)),
    ensures
        work_id_spec(m1, a1) == work_id_spec(m2, a2),
{
}

} // verus!
