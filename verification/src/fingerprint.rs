//! Content fingerprints: a SHA-256 digest, in lower-case hex, of a
//! length-prefixed encoding of a requirement's title, body and tags.
//!
//! A child stores its parent's fingerprint on the link; a link is suspect
//! when that stored value differs from the parent's current fingerprint.

use vstd::prelude::*;

use sha2::Digest;

use crate::text::push_char;

verus! {

/// SHA-256 of a byte string (`sha2::Sha256::digest`).
pub uninterp spec fn sha256(data: Seq<u8>) -> Seq<u8>;

/// Computes the SHA-256 digest of `data` with the `sha2` crate: the named
/// digest, 32 bytes long.
#[verifier::external_body]
fn sha256_digest(data: &[u8]) -> (r: Vec<u8>)
    ensures
        r@ == sha256(data@),
        r@.len() == 32,
{
    sha2::Sha256::digest(data).to_vec()
}

/// Eight bytes, least significant first.
pub open spec fn le_u64(n: nat) -> Seq<u8> {
    Seq::new(8, |i: int| ((n / pow256(i)) % 256) as u8)
}

/// `256^i` for `0 <= i`.
pub open spec fn pow256(i: int) -> nat
    decreases i,
{
    if i <= 0 {
        1
    } else {
        256 * pow256(i - 1)
    }
}

/// A byte string with its length in front.
pub open spec fn encode_bytes(b: Seq<u8>) -> Seq<u8> {
    le_u64(b.len()) + b
}

/// A string as its UTF-8 bytes with their length in front.
pub open spec fn encode_text(s: Seq<char>) -> Seq<u8> {
    encode_bytes(vstd::utf8::encode_utf8(s))
}

/// The encodings of a list of strings, one after the other.
pub open spec fn encode_texts(tags: Seq<Seq<char>>) -> Seq<u8>
    decreases tags.len(),
{
    if tags.len() == 0 {
        Seq::empty()
    } else {
        encode_texts(tags.drop_last()) + encode_text(tags.last())
    }
}

/// The bytes that are hashed: title, body, then the number of tags and
/// each tag.
pub open spec fn encode_content(title: Seq<char>, body: Seq<char>, tags: Seq<Seq<char>>) -> Seq<u8> {
    encode_text(title) + encode_text(body) + le_u64(tags.len()) + encode_texts(tags)
}

/// Lower-case hex digit of `d < 16`.
pub open spec fn hex_digit(d: nat) -> char {
    if d < 10 {
        ((d + 48) as u8) as char
    } else {
        ((d + 87) as u8) as char
    }
}

/// Lower-case hex rendering, two digits per byte.
pub open spec fn hex(b: Seq<u8>) -> Seq<char>
    decreases b.len(),
{
    if b.len() == 0 {
        Seq::empty()
    } else {
        hex(b.drop_last()) + seq![hex_digit((b.last() / 16) as nat), hex_digit((b.last() % 16) as nat)]
    }
}

/// The fingerprint of a requirement's content.
pub open spec fn spec_fingerprint(title: Seq<char>, body: Seq<char>, tags: Seq<Seq<char>>) -> Seq<char> {
    hex(sha256(encode_content(title, body, tags)))
}

fn push_le_u64(out: &mut Vec<u8>, n: u64)
    ensures
        final(out)@ == old(out)@ + le_u64(n as nat),
{
    let ghost start = out@;
    let mut i: usize = 0;
    let mut x: u64 = n;
    assert(pow256(0) == 1);
    assert(le_u64(n as nat).take(0) =~= Seq::<u8>::empty());
    assert(out@ =~= start + le_u64(n as nat).take(0));
    while i < 8
        invariant
            i <= 8,
            x as nat == n as nat / pow256(i as int),
            out@ == start + le_u64(n as nat).take(i as int),
        decreases 8 - i,
    {
        let ghost xi = x;
        out.push((x % 256) as u8);
        x = x / 256;
        proof {
            assert(pow256(i + 1) == 256 * pow256(i as int));
            assert(pow256(i as int) > 0) by {
                lemma_pow256_pos(i as int);
            }
            assert(x as nat == (n as nat / pow256(i as int)) / 256);
            vstd::arithmetic::div_mod::lemma_div_denominator(
                n as int,
                pow256(i as int) as int,
                256,
            );
            assert(out@ =~= start + le_u64(n as nat).take(i + 1));
        }
        i = i + 1;
    }
    assert(le_u64(n as nat).take(8) =~= le_u64(n as nat));
}

proof fn lemma_pow256_pos(i: int)
    ensures
        pow256(i) > 0,
    decreases i,
{
    if i > 0 {
        lemma_pow256_pos(i - 1);
    }
}

fn push_bytes(out: &mut Vec<u8>, b: &[u8])
    ensures
        final(out)@ == old(out)@ + b@,
{
    let ghost start = out@;
    let mut i: usize = 0;
    while i < b.len()
        invariant
            i <= b@.len(),
            out@ == start + b@.take(i as int),
        decreases b@.len() - i,
    {
        out.push(b[i]);
        i = i + 1;
        assert(out@ =~= start + b@.take(i as int));
    }
    assert(b@.take(b@.len() as int) =~= b@);
}

fn push_text(out: &mut Vec<u8>, s: &str)
    ensures
        final(out)@ == old(out)@ + encode_text(s@),
{
    let b = s.as_bytes();
    push_le_u64(out, b.len() as u64);
    push_bytes(out, b);
    assert(out@ =~= old(out)@ + encode_text(s@));
}

fn hex_char(d: u8) -> (c: char)
    requires
        d < 16,
    ensures
        c == hex_digit(d as nat),
{
    if d < 10 {
        (d + 48) as char
    } else {
        (d + 87) as char
    }
}

/// The fingerprint of a title, body and tag list.
pub fn fingerprint(title: &str, body: &str, tags: &[String]) -> (r: String)
    ensures
        r@ == spec_fingerprint(title@, body@, tags@.map_values(|t: String| t@)),
{
    let ghost tv = tags@.map_values(|t: String| t@);
    let mut bytes: Vec<u8> = Vec::new();
    push_text(&mut bytes, title);
    push_text(&mut bytes, body);
    push_le_u64(&mut bytes, tags.len() as u64);
    let ghost head = bytes@;
    let mut i: usize = 0;
    while i < tags.len()
        invariant
            i <= tags@.len(),
            tv == tags@.map_values(|t: String| t@),
            bytes@ == head + encode_texts(tv.take(i as int)),
        decreases tags@.len() - i,
    {
        push_text(&mut bytes, tags[i].as_str());
        proof {
            assert(tv.take(i + 1).drop_last() =~= tv.take(i as int));
        }
        i = i + 1;
    }
    assert(tv.take(tags@.len() as int) =~= tv);
    assert(bytes@ =~= encode_content(title@, body@, tv));
    let digest = sha256_digest(bytes.as_slice());
    let mut out = String::new();
    let mut j: usize = 0;
    while j < digest.len()
        invariant
            j <= digest@.len(),
            out@ == hex(digest@.take(j as int)),
        decreases digest@.len() - j,
    {
        let byte = digest[j];
        push_char(&mut out, hex_char(byte / 16));
        push_char(&mut out, hex_char(byte % 16));
        proof {
            assert(digest@.take(j + 1).drop_last() =~= digest@.take(j as int));
            assert(out@ =~= hex(digest@.take(j + 1)));
        }
        j = j + 1;
    }
    assert(digest@.take(digest@.len() as int) =~= digest@);
    out
}

} // verus!
