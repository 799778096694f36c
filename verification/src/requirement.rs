//! Owned requirement values: identity, content and parent links.

use vstd::prelude::*;

use crate::fingerprint::{fingerprint, hex_digit, spec_fingerprint};
use crate::hrid::{Hrid, SpecHrid};
use crate::text::{copy_string, push_char, push_chars, slice_range};

verus! {

/// A point in time: seconds since the Unix epoch and the nanoseconds within
/// that second.
#[derive(Clone, Copy, Debug, PartialEq, Eq, Structural, PartialOrd, Ord, Hash)]
pub struct Timestamp {
    pub seconds: i64,
    pub nanos: u32,
}

/// A fresh random (version 4) UUID as a `u128` (`uuid::Uuid::new_v4`):
/// random but for the version nibble (4) and the RFC 4122 variant bits
/// (`10`), which `new_v4` sets.
#[verifier::external_body]
pub(crate) fn fresh_uuid() -> (r: u128)
    ensures
        (r >> 76u128) & 0xfu128 == 4,
        (r >> 62u128) & 0x3u128 == 2,
{
    uuid::Uuid::new_v4().as_u128()
}

/// The current time (`chrono::Utc::now`), as seconds since the epoch and
/// the nanoseconds within the second (over a billion only in a leap
/// second).
#[verifier::external_body]
pub(crate) fn now() -> (r: Timestamp)
    ensures
        r.nanos < 2_000_000_000,
{
    let t = chrono::Utc::now();
    Timestamp { seconds: t.timestamp(), nanos: t.timestamp_subsec_nanos() }
}


/// `16^i` for `0 <= i`.
pub open spec fn pow16(i: int) -> nat
    decreases i,
{
    if i <= 0 {
        1
    } else {
        16 * pow16(i - 1)
    }
}

/// The `i`-th hex digit of a UUID, most significant first (`0 <= i < 32`).
pub open spec fn uuid_nibble(u: u128, i: int) -> nat {
    (u as nat / pow16(31 - i)) % 16
}

/// The 32 lower-case hex digits of a UUID, most significant first.
pub open spec fn uuid_hex(u: u128) -> Seq<char> {
    Seq::new(32, |i: int| hex_digit(uuid_nibble(u, i)))
}

/// The hyphenated form of a UUID (`uuid::Uuid`'s `Display`):
/// `xxxxxxxx-xxxx-xxxx-xxxx-xxxxxxxxxxxx`.
pub open spec fn uuid_text(u: u128) -> Seq<char> {
    let h = uuid_hex(u);
    h.subrange(0, 8) + seq!['-'] + h.subrange(8, 12) + seq!['-'] + h.subrange(12, 16) + seq!['-']
        + h.subrange(16, 20) + seq!['-'] + h.subrange(20, 32)
}

proof fn lemma_pow16_pos(i: int)
    ensures
        pow16(i) > 0,
    decreases i,
{
    if i > 0 {
        lemma_pow16_pos(i - 1);
    }
}

fn hex_digit_char(d: u128) -> (c: char)
    requires
        d < 16,
    ensures
        c == hex_digit(d as nat),
{
    let b = d as u8;
    if b < 10 {
        (b + 48) as char
    } else {
        (b + 87) as char
    }
}

/// The hyphenated lower-case text of a UUID.
pub fn uuid_to_string(u: u128) -> (r: String)
    ensures
        r@ == uuid_text(u),
{
    let mut digits: Vec<char> = Vec::new();
    let mut x: u128 = u;
    let mut i: usize = 0;
    assert(pow16(0) == 1);
    while i < 32
        invariant
            i <= 32,
            x as nat == u as nat / pow16(i as int),
            digits@.len() == i,
            forall|j: int| 0 <= j < i ==> #[trigger] digits@[j] == hex_digit(uuid_nibble(u, 31 - j)),
        decreases 32 - i,
    {
        digits.push(hex_digit_char(x % 16));
        proof {
            lemma_pow16_pos(i as int);
            assert(pow16(i + 1) == 16 * pow16(i as int));
            vstd::arithmetic::div_mod::lemma_div_denominator(u as int, pow16(i as int) as int, 16);
            assert(uuid_nibble(u, 31 - i) == (u as nat / pow16(i as int)) % 16);
        }
        x = x / 16;
        i = i + 1;
    }
    let mut hexv: Vec<char> = Vec::new();
    let mut k: usize = 0;
    while k < 32
        invariant
            k <= 32,
            digits@.len() == 32,
            forall|j: int| 0 <= j < 32 ==> #[trigger] digits@[j] == hex_digit(uuid_nibble(u, 31 - j)),
            hexv@ == uuid_hex(u).take(k as int),
        decreases 32 - k,
    {
        hexv.push(digits[31 - k]);
        proof {
            assert(uuid_hex(u)[k as int] == digits@[31 - k]);
            assert(hexv@ =~= uuid_hex(u).take(k + 1));
        }
        k = k + 1;
    }
    assert(hexv@ =~= uuid_hex(u));
    let mut r = String::new();
    push_chars(&mut r, slice_range(hexv.as_slice(), 0, 8).as_slice());
    push_char(&mut r, '-');
    push_chars(&mut r, slice_range(hexv.as_slice(), 8, 12).as_slice());
    push_char(&mut r, '-');
    push_chars(&mut r, slice_range(hexv.as_slice(), 12, 16).as_slice());
    push_char(&mut r, '-');
    push_chars(&mut r, slice_range(hexv.as_slice(), 16, 20).as_slice());
    push_char(&mut r, '-');
    push_chars(&mut r, slice_range(hexv.as_slice(), 20, 32).as_slice());
    assert(r@ =~= uuid_text(u));
    r
}

/// A reference from a child to one of its parents, as stored on the child.
#[derive(Debug)]
pub struct Parent {
    /// The parent's HRID when the link was made.
    pub hrid: Hrid,
    /// The parent's fingerprint when the link was made or last reviewed.
    pub fingerprint: String,
}

/// The content of a parent reference.
pub struct ParentView {
    pub hrid: SpecHrid,
    pub fingerprint: Seq<char>,
}

impl View for Parent {
    type V = ParentView;

    open spec fn view(&self) -> ParentView {
        ParentView { hrid: self.hrid@, fingerprint: self.fingerprint@ }
    }
}

impl Clone for Parent {
    fn clone(&self) -> (r: Self)
        ensures
            r@ == self@,
    {
        Parent { hrid: self.hrid.clone(), fingerprint: copy_string(&self.fingerprint) }
    }
}

/// The tags of a requirement as text.
pub open spec fn tags_view(tags: Seq<String>) -> Seq<Seq<char>> {
    tags.map_values(|t: String| t@)
}

/// The parent links of a requirement as `(uuid, reference)` pairs.
pub open spec fn parents_view(parents: Seq<(u128, Parent)>) -> Seq<(u128, ParentView)> {
    parents.map_values(|p: (u128, Parent)| (p.0, p.1@))
}

/// A requirement: identity, content and parent links.
#[derive(Debug)]
pub struct Requirement {
    /// Immutable identifier.
    pub uuid: u128,
    /// Human-readable identifier.
    pub hrid: Hrid,
    /// Creation time.
    pub created: Timestamp,
    /// Title (without the HRID or heading markers).
    pub title: String,
    /// Markdown body after the heading.
    pub body: String,
    /// Tags, in order.
    pub tags: Vec<String>,
    /// Parent links, keyed by the parent's UUID.
    pub parents: Vec<(u128, Parent)>,
}

/// Copies a list of strings.
pub fn copy_strings(v: &[String]) -> (r: Vec<String>)
    ensures
        tags_view(r@) == tags_view(v@),
{
    let mut r: Vec<String> = Vec::new();
    let mut i: usize = 0;
    while i < v.len()
        invariant
            i <= v@.len(),
            r@.len() == i,
            forall|j: int| 0 <= j < i ==> #[trigger] r@[j]@ == v@[j]@,
        decreases v@.len() - i,
    {
        r.push(copy_string(&v[i]));
        i = i + 1;
    }
    assert(tags_view(r@) =~= tags_view(v@));
    r
}

/// Copies a list of parent links.
pub fn copy_parents(v: &[(u128, Parent)]) -> (r: Vec<(u128, Parent)>)
    ensures
        parents_view(r@) == parents_view(v@),
{
    let mut r: Vec<(u128, Parent)> = Vec::new();
    let mut i: usize = 0;
    while i < v.len()
        invariant
            i <= v@.len(),
            r@.len() == i,
            forall|j: int| 0 <= j < i ==> #[trigger] r@[j].0 == v@[j].0 && r@[j].1@ == v@[j].1@,
        decreases v@.len() - i,
    {
        let (u, p) = (v[i].0, v[i].1.clone());
        r.push((u, p));
        i = i + 1;
    }
    assert(parents_view(r@) =~= parents_view(v@));
    r
}

impl Clone for Requirement {
    fn clone(&self) -> (r: Self)
        ensures
            r.uuid == self.uuid,
            r.hrid@ == self.hrid@,
            r.created == self.created,
            r.title@ == self.title@,
            r.body@ == self.body@,
            tags_view(r.tags@) == tags_view(self.tags@),
            parents_view(r.parents@) == parents_view(self.parents@),
    {
        Requirement {
            uuid: self.uuid,
            hrid: self.hrid.clone(),
            created: self.created,
            title: copy_string(&self.title),
            body: copy_string(&self.body),
            tags: copy_strings(self.tags.as_slice()),
            parents: copy_parents(self.parents.as_slice()),
        }
    }
}

impl Requirement {
    /// A new requirement with a fresh random UUID, created now, with no tags
    /// and no parents.
    pub fn new(hrid: Hrid, title: String, body: String) -> (r: Self)
        ensures
            r.hrid@ == hrid@,
            r.title@ == title@,
            r.body@ == body@,
            r.tags@.len() == 0,
            r.parents@.len() == 0,
    {
        Requirement {
            uuid: fresh_uuid(),
            hrid,
            created: now(),
            title,
            body,
            tags: Vec::new(),
            parents: Vec::new(),
        }
    }

    /// The requirement's UUID.
    pub fn uuid(&self) -> (r: u128)
        ensures
            r == self.uuid,
    {
        self.uuid
    }

    /// The fingerprint of the requirement's title, body and tags.
    pub fn fingerprint(&self) -> (r: String)
        ensures
            r@ == spec_fingerprint(self.title@, self.body@, tags_view(self.tags@)),
    {
        fingerprint(self.title.as_str(), self.body.as_str(), self.tags.as_slice())
    }
}

} // verus!
