//! Repository configuration: allowed kinds, kind descriptions, HRID digit
//! width and directory-layout switches.

use vstd::prelude::*;

use crate::text::{
    chars_of, copy_string, is_blank, lemma_text_lt_asym, lemma_text_lt_total, lemma_text_lt_trans, str_eq, str_lt,
    string_from_range, text_lt, trim, trim_bounds,
};

verus! {

/// `str::to_uppercase`: the Unicode upper-case mapping of the text.
pub uninterp spec fn uppercase(s: Seq<char>) -> Seq<char>;

/// Upper-cases a string with `str::to_uppercase`.
#[verifier::external_body]
pub(crate) fn to_uppercase(s: &str) -> (r: String)
    ensures
        r@ == uppercase(s@),
{
    s.to_uppercase()
}

/// Metadata describing a requirement kind.
#[derive(Debug, PartialEq, Eq)]
pub struct KindMetadata {
    /// Human-readable description of the kind's purpose.
    pub description: Option<String>,
}

/// An optional string as text.
pub open spec fn opt_text(o: Option<String>) -> Option<Seq<char>> {
    match o {
        Some(d) => Some(d@),
        None => None,
    }
}

/// The description of a metadata record as text.
pub open spec fn description_view(m: KindMetadata) -> Option<Seq<char>> {
    match m.description {
        Some(d) => Some(d@),
        None => None,
    }
}

impl Clone for KindMetadata {
    fn clone(&self) -> (r: Self)
        ensures
            description_view(r) == description_view(*self),
    {
        match &self.description {
            Some(d) => KindMetadata { description: Some(copy_string(d)) },
            None => KindMetadata { description: None },
        }
    }
}

/// A kind together with its metadata.
#[derive(Debug)]
pub struct KindEntry {
    pub kind: String,
    pub metadata: KindMetadata,
}

impl Clone for KindEntry {
    fn clone(&self) -> (r: Self)
        ensures
            r.kind@ == self.kind@,
            description_view(r.metadata) == description_view(self.metadata),
    {
        KindEntry { kind: copy_string(&self.kind), metadata: self.metadata.clone() }
    }
}

/// The keys of an association list are pairwise distinct.
pub open spec fn distinct_keys(s: Seq<(Seq<char>, Option<Seq<char>>)>) -> bool {
    forall|i: int, j: int| 0 <= i < s.len() && 0 <= j < s.len() && i != j ==> s[i].0 != s[j].0
}

/// Some entry has key `k`.
pub open spec fn has_key(s: Seq<(Seq<char>, Option<Seq<char>>)>, k: Seq<char>) -> bool {
    exists|i: int| 0 <= i < s.len() && s[i].0 == k
}

/// The map an association list denotes.
pub open spec fn assoc_map(s: Seq<(Seq<char>, Option<Seq<char>>)>) -> Map<
    Seq<char>,
    Option<Seq<char>>,
> {
    Map::new(
        |k: Seq<char>| has_key(s, k),
        |k: Seq<char>| s[choose|i: int| 0 <= i < s.len() && s[i].0 == k].1,
    )
}

proof fn lemma_assoc_map_at(s: Seq<(Seq<char>, Option<Seq<char>>)>, i: int)
    requires
        distinct_keys(s),
        0 <= i < s.len(),
    ensures
        assoc_map(s).contains_key(s[i].0),
        assoc_map(s)[s[i].0] == s[i].1,
{
    let k = s[i].0;
    assert(has_key(s, k));
    let j = choose|j: int| 0 <= j < s.len() && s[j].0 == k;
    assert(j == i);
}

proof fn lemma_assoc_map_update(
    s: Seq<(Seq<char>, Option<Seq<char>>)>,
    i: int,
    v: Option<Seq<char>>,
)
    requires
        distinct_keys(s),
        0 <= i < s.len(),
    ensures
        distinct_keys(s.update(i, (s[i].0, v))),
        assoc_map(s.update(i, (s[i].0, v))) == assoc_map(s).insert(s[i].0, v),
{
    let t = s.update(i, (s[i].0, v));
    let k = s[i].0;
    assert forall|a: int, b: int| 0 <= a < t.len() && 0 <= b < t.len() && a != b implies t[a].0
        != t[b].0 by {
        assert(t[a].0 == s[a].0);
        assert(t[b].0 == s[b].0);
    }
    lemma_assoc_map_at(t, i);
    assert forall|x: Seq<char>| #[trigger] has_key(t, x) == has_key(s, x) by {
        if has_key(t, x) {
            let j = choose|j: int| 0 <= j < t.len() && t[j].0 == x;
            assert(s[j].0 == x);
        }
        if has_key(s, x) {
            let j = choose|j: int| 0 <= j < s.len() && s[j].0 == x;
            assert(t[j].0 == x);
        }
    }
    assert forall|x: Seq<char>| has_key(t, x) && x != k implies #[trigger] assoc_map(t)[x] == assoc_map(
        s,
    )[x] by {
        let j = choose|j: int| 0 <= j < s.len() && s[j].0 == x;
        lemma_assoc_map_at(s, j);
        lemma_assoc_map_at(t, j);
    }
    assert(assoc_map(t) =~= assoc_map(s).insert(k, v));
}

proof fn lemma_assoc_map_push(s: Seq<(Seq<char>, Option<Seq<char>>)>, k: Seq<char>, v: Option<Seq<char>>)
    requires
        distinct_keys(s),
        !has_key(s, k),
    ensures
        distinct_keys(s.push((k, v))),
        assoc_map(s.push((k, v))) == assoc_map(s).insert(k, v),
{
    let t = s.push((k, v));
    assert forall|a: int, b: int| 0 <= a < t.len() && 0 <= b < t.len() && a != b implies t[a].0
        != t[b].0 by {
        if a == s.len() as int {
            assert(!(s[b].0 == k));
        } else if b == s.len() as int {
            assert(!(s[a].0 == k));
        }
    }
    lemma_assoc_map_at(t, s.len() as int);
    assert forall|x: Seq<char>| #[trigger] has_key(t, x) == (has_key(s, x) || x == k) by {
        if has_key(t, x) && x != k {
            let j = choose|j: int| 0 <= j < t.len() && t[j].0 == x;
            assert(j < s.len());
            assert(s[j].0 == x);
        }
        if has_key(s, x) {
            let j = choose|j: int| 0 <= j < s.len() && s[j].0 == x;
            assert(t[j].0 == x);
        }
        if x == k {
            assert(t[s.len() as int].0 == x);
        }
    }
    assert forall|x: Seq<char>| has_key(t, x) && x != k implies #[trigger] assoc_map(t)[x] == assoc_map(
        s,
    )[x] by {
        let j = choose|j: int| 0 <= j < s.len() && s[j].0 == x;
        lemma_assoc_map_at(s, j);
        assert(t[j] == s[j]);
        lemma_assoc_map_at(t, j);
    }
    assert(assoc_map(t) =~= assoc_map(s).insert(k, v));
}

proof fn lemma_assoc_map_remove(s: Seq<(Seq<char>, Option<Seq<char>>)>, i: int)
    requires
        distinct_keys(s),
        0 <= i < s.len(),
    ensures
        distinct_keys(s.remove(i)),
        assoc_map(s.remove(i)) == assoc_map(s).remove(s[i].0),
{
    let t = s.remove(i);
    let k = s[i].0;
    assert forall|a: int, b: int| 0 <= a < t.len() && 0 <= b < t.len() && a != b implies t[a].0
        != t[b].0 by {
        let a2 = if a < i {
            a
        } else {
            a + 1
        };
        let b2 = if b < i {
            b
        } else {
            b + 1
        };
        assert(t[a] == s[a2]);
        assert(t[b] == s[b2]);
    }
    assert forall|x: Seq<char>| #[trigger] has_key(t, x) == (has_key(s, x) && x != k) by {
        if has_key(t, x) {
            let j = choose|j: int| 0 <= j < t.len() && t[j].0 == x;
            let j2 = if j < i {
                j
            } else {
                j + 1
            };
            assert(s[j2].0 == x);
            assert(j2 != i);
        }
        if has_key(s, x) && x != k {
            let j = choose|j: int| 0 <= j < s.len() && s[j].0 == x;
            assert(j != i);
            let j2 = if j < i {
                j
            } else {
                j - 1
            };
            assert(t[j2].0 == x);
        }
    }
    assert forall|x: Seq<char>| has_key(t, x) implies #[trigger] assoc_map(t)[x] == assoc_map(s)[x] by {
        let j = choose|j: int| 0 <= j < t.len() && t[j].0 == x;
        let j2 = if j < i {
            j
        } else {
            j + 1
        };
        assert(t[j] == s[j2]);
        lemma_assoc_map_at(s, j2);
        lemma_assoc_map_at(t, j);
    }
    assert(assoc_map(t) =~= assoc_map(s).remove(k));
}

/// The abstract content of a [`Config`].
pub struct ConfigView {
    pub allowed_kinds: Seq<Seq<char>>,
    pub kind_metadata: Map<Seq<char>, Option<Seq<char>>>,
    pub digits: nat,
    pub allow_unrecognised: bool,
    pub subfolders_are_namespaces: bool,
}

/// Configuration for requirements management.
#[derive(Debug)]
pub struct Config {
    /// The kinds of requirement that are allowed; empty means all.
    allowed_kinds: Vec<String>,
    /// Metadata by kind, one entry per kind.
    kind_metadata: Vec<KindEntry>,
    /// The number of digits HRID ids are padded to.
    digits: usize,
    /// Whether the directory may hold markdown files whose names are not HRIDs.
    pub allow_unrecognised: bool,
    /// Whether subfolders contribute namespace segments to HRIDs.
    pub subfolders_are_namespaces: bool,
}

/// The default HRID digit width.
pub open spec fn spec_default_digits() -> nat {
    3
}

/// The default HRID digit width.
pub fn default_digits() -> (r: usize)
    ensures
        r == spec_default_digits(),
{
    3
}

impl Clone for Config {
    fn clone(&self) -> (r: Self)
        ensures
            r.metadata_entries() == self.metadata_entries(),
            r.view() == self.view(),
            r.wf() == self.wf(),
    {
        let mut kinds: Vec<String> = Vec::new();
        let mut i: usize = 0;
        while i < self.allowed_kinds.len()
            invariant
                i <= self.allowed_kinds@.len(),
                kinds@.len() == i,
                forall|j: int| 0 <= j < i ==> #[trigger] kinds@[j]@ == self.allowed_kinds@[j]@,
            decreases self.allowed_kinds@.len() - i,
        {
            kinds.push(copy_string(&self.allowed_kinds[i]));
            i = i + 1;
        }
        let mut entries: Vec<KindEntry> = Vec::new();
        let mut j: usize = 0;
        while j < self.kind_metadata.len()
            invariant
                j <= self.kind_metadata@.len(),
                entries@.len() == j,
                forall|k: int|
                    0 <= k < j ==> #[trigger] entries@[k].kind@ == self.kind_metadata@[k].kind@
                        && description_view(entries@[k].metadata) == description_view(
                        self.kind_metadata@[k].metadata,
                    ),
            decreases self.kind_metadata@.len() - j,
        {
            entries.push(self.kind_metadata[j].clone());
            j = j + 1;
        }
        let r = Config {
            allowed_kinds: kinds,
            kind_metadata: entries,
            digits: self.digits,
            allow_unrecognised: self.allow_unrecognised,
            subfolders_are_namespaces: self.subfolders_are_namespaces,
        };
        assert(r.metadata_entries() =~= self.metadata_entries());
        assert(r.allowed_kinds@.map_values(|k: String| k@) =~= self.allowed_kinds@.map_values(
            |k: String| k@,
        ));
        r
    }
}

impl Config {
    /// The metadata as an association list of views.
    pub closed spec fn metadata_entries(&self) -> Seq<(Seq<char>, Option<Seq<char>>)> {
        self.kind_metadata@.map_values(|e: KindEntry| (e.kind@, description_view(e.metadata)))
    }

    /// Metadata keys are distinct.
    pub closed spec fn wf(&self) -> bool {
        distinct_keys(self.metadata_entries())
    }

    /// The abstract content.
    pub closed spec fn view(&self) -> ConfigView {
        ConfigView {
            allowed_kinds: self.allowed_kinds@.map_values(|k: String| k@),
            kind_metadata: assoc_map(self.metadata_entries()),
            digits: self.digits as nat,
            allow_unrecognised: self.allow_unrecognised,
            subfolders_are_namespaces: self.subfolders_are_namespaces,
        }
    }

    /// The default configuration: all kinds allowed, no metadata, three
    /// digits, unrecognised files rejected, HRIDs encoded in file names.
    pub fn default() -> (r: Self)
        ensures
            r.wf(),
            r.view().allowed_kinds == Seq::<Seq<char>>::empty(),
            r.view().kind_metadata == Map::<Seq<char>, Option<Seq<char>>>::empty(),
            r.view().digits == spec_default_digits(),
            !r.view().allow_unrecognised,
            !r.view().subfolders_are_namespaces,
    {
        let r = Config {
            allowed_kinds: Vec::new(),
            kind_metadata: Vec::new(),
            digits: default_digits(),
            allow_unrecognised: false,
            subfolders_are_namespaces: false,
        };
        assert(r.view().allowed_kinds =~= Seq::<Seq<char>>::empty());
        assert(r.view().kind_metadata =~= Map::<Seq<char>, Option<Seq<char>>>::empty());
        r
    }

    /// The configuration a store opens with: the one read from its config
    /// file, or the default where the store has none (the normal case of a
    /// store that was never initialised).
    pub fn found_or_default(found: Option<Config>) -> (r: Self)
        ensures
            found matches Some(c) ==> r == c,
            found is None ==> {
                &&& r.wf()
                &&& r.view().allowed_kinds == Seq::<Seq<char>>::empty()
                &&& r.view().kind_metadata == Map::<Seq<char>, Option<Seq<char>>>::empty()
                &&& r.view().digits == spec_default_digits()
                &&& !r.view().allow_unrecognised
                &&& !r.view().subfolders_are_namespaces
            },
    {
        match found {
            Some(c) => c,
            None => Config::default(),
        }
    }

    /// The number of digits HRID ids are padded to.
    pub fn digits(&self) -> (r: usize)
        ensures
            r == self.view().digits,
    {
        self.digits
    }

    /// The allowed kinds, in configuration order.
    pub fn allowed_kinds(&self) -> (r: &[String])
        ensures
            r@.map_values(|k: String| k@) == self.view().allowed_kinds,
    {
        self.allowed_kinds.as_slice()
    }

    /// The metadata entries, one per described kind.
    pub fn kind_metadata(&self) -> (r: &[KindEntry])
        ensures
            r@.map_values(|e: KindEntry| (e.kind@, description_view(e.metadata)))
                == self.metadata_entries(),
            self.wf() ==> assoc_map(self.metadata_entries()) == self.view().kind_metadata,
    {
        self.kind_metadata.as_slice()
    }

    fn find_metadata(&self, kind: &str) -> (r: Option<usize>)
        ensures
            match r {
                Some(i) => i < self.metadata_entries().len() && self.metadata_entries()[i as int].0
                    == kind@,
                None => !has_key(self.metadata_entries(), kind@),
            },
    {
        let mut i: usize = 0;
        while i < self.kind_metadata.len()
            invariant
                i <= self.kind_metadata@.len(),
                forall|j: int| 0 <= j < i ==> self.metadata_entries()[j].0 != kind@,
            decreases self.kind_metadata@.len() - i,
        {
            if str_eq(self.kind_metadata[i].kind.as_str(), kind) {
                return Some(i);
            }
            i = i + 1;
        }
        None
    }

    /// The metadata of `kind`, if any is recorded.
    pub fn metadata_for_kind(&self, kind: &str) -> (r: Option<&KindMetadata>)
        requires
            self.wf(),
        ensures
            r is Some <==> self.view().kind_metadata.contains_key(kind@),
            r matches Some(m) ==> self.view().kind_metadata[kind@] == description_view(*m),
    {
        match self.find_metadata(kind) {
            Some(i) => {
                proof {
                    lemma_assoc_map_at(self.metadata_entries(), i as int);
                }
                Some(&self.kind_metadata[i].metadata)
            },
            None => None,
        }
    }

    /// Whether `kind` is allowed: every kind is when the list is empty,
    /// otherwise the kind must be listed.
    pub fn is_kind_allowed(&self, kind: &str) -> (r: bool)
        ensures
            r == (self.view().allowed_kinds.len() == 0 || self.view().allowed_kinds.contains(
                kind@,
            )),
    {
        if self.allowed_kinds.len() == 0 {
            return true;
        }
        let i = self.position_of_kind(kind);
        i.is_some()
    }

    fn position_of_kind(&self, kind: &str) -> (r: Option<usize>)
        ensures
            match r {
                Some(i) => i < self.view().allowed_kinds.len() && self.view().allowed_kinds[i as int]
                    == kind@ && forall|j: int| 0 <= j < i ==> self.view().allowed_kinds[j] != kind@,
                None => !self.view().allowed_kinds.contains(kind@),
            },
    {
        let mut i: usize = 0;
        while i < self.allowed_kinds.len()
            invariant
                i <= self.allowed_kinds@.len(),
                forall|j: int| 0 <= j < i ==> self.view().allowed_kinds[j] != kind@,
            decreases self.allowed_kinds@.len() - i,
        {
            if str_eq(self.allowed_kinds[i].as_str(), kind) {
                return Some(i);
            }
            i = i + 1;
        }
        None
    }

    /// Whether files that are not requirements are tolerated.
    pub fn allows_unrecognised(&self) -> (r: bool)
        ensures
            r == self.view().allow_unrecognised,
    {
        self.allow_unrecognised
    }

    /// Whether subfolders contribute namespace segments to HRIDs.
    pub fn subfolders_are_namespaces(&self) -> (r: bool)
        ensures
            r == self.view().subfolders_are_namespaces,
    {
        self.subfolders_are_namespaces
    }

    /// Sets whether subfolders contribute namespace segments.
    pub fn set_subfolders_are_namespaces(&mut self, value: bool)
        ensures
            final(self).view() == (ConfigView { subfolders_are_namespaces: value, ..old(self).view() }),
            final(self).wf() == old(self).wf(),
    {
        self.subfolders_are_namespaces = value;
    }

    /// Adds the upper-cased kind to the allowed list unless it is already
    /// there. Returns whether it was added.
    pub fn add_kind(&mut self, kind: &str) -> (r: bool)
        ensures
            r == !old(self).view().allowed_kinds.contains(uppercase(kind@)),
            final(self).view() == (ConfigView {
                allowed_kinds: if r {
                    old(self).view().allowed_kinds.push(uppercase(kind@))
                } else {
                    old(self).view().allowed_kinds
                },
                ..old(self).view()
            }),
            final(self).wf() == old(self).wf(),
    {
        let key = to_uppercase(kind);
        if self.position_of_kind(key.as_str()).is_some() {
            return false;
        }
        let ghost before = self.allowed_kinds@;
        self.allowed_kinds.push(key);
        assert(self.allowed_kinds@.map_values(|k: String| k@) =~= before.map_values(
            |k: String| k@,
        ).push(uppercase(kind@)));
        true
    }

    /// Removes the upper-cased kind from the allowed list, together with its
    /// metadata. Returns whether it was listed.
    pub fn remove_kind(&mut self, kind: &str) -> (r: bool)
        requires
            old(self).wf(),
        ensures
            final(self).wf(),
            r == old(self).view().allowed_kinds.contains(uppercase(kind@)),
            !r ==> final(self).view() == old(self).view(),
            r ==> exists|p: int|
                {
                    &&& 0 <= p < old(self).view().allowed_kinds.len()
                    &&& old(self).view().allowed_kinds[p] == uppercase(kind@)
                    &&& forall|j: int| 0 <= j < p ==> old(self).view().allowed_kinds[j] != uppercase(kind@)
                    &&& final(self).view() == (ConfigView {
                        allowed_kinds: old(self).view().allowed_kinds.remove(p),
                        kind_metadata: old(self).view().kind_metadata.remove(uppercase(kind@)),
                        ..old(self).view()
                    })
                },
    {
        let key = to_uppercase(kind);
        match self.position_of_kind(key.as_str()) {
            None => false,
            Some(pos) => {
                let ghost old_kinds = self.view().allowed_kinds;
                proof {
                    assert(old_kinds[pos as int] == key@);
                }
                self.allowed_kinds.remove(pos);
                assert(self.allowed_kinds@.map_values(|k: String| k@) =~= old_kinds.remove(
                    pos as int,
                ));
                let ghost old_entries = self.metadata_entries();
                match self.find_metadata(key.as_str()) {
                    Some(i) => {
                        proof {
                            lemma_assoc_map_remove(old_entries, i as int);
                        }
                        self.kind_metadata.remove(i);
                        assert(self.metadata_entries() =~= old_entries.remove(i as int));
                    },
                    None => {
                        assert(assoc_map(old_entries).remove(key@) =~= assoc_map(old_entries));
                    },
                }
                assert(self.view().allowed_kinds == old_kinds.remove(pos as int));
                assert(self.view().kind_metadata == assoc_map(old_entries).remove(key@));
                true
            },
        }
    }

    /// Records `description` as the metadata of `key`, replacing any.
    fn put_metadata(&mut self, key: String, description: Option<String>)
        requires
            old(self).wf(),
        ensures
            final(self).wf(),
            final(self).view() == (ConfigView {
                kind_metadata: old(self).view().kind_metadata.insert(key@, opt_text(description)),
                ..old(self).view()
            }),
    {
        let ghost old_entries = self.metadata_entries();
        let ghost dv = opt_text(description);
        let found = self.find_metadata(key.as_str());
        let ghost kv = key@;
        match found {
            Some(i) => {
                proof {
                    lemma_assoc_map_update(old_entries, i as int, dv);
                }
                self.kind_metadata.set(i, KindEntry { kind: key, metadata: KindMetadata { description } });
                assert(self.metadata_entries() =~= old_entries.update(i as int, (old_entries[i as int].0, dv)));
            },
            None => {
                proof {
                    lemma_assoc_map_push(old_entries, kv, dv);
                }
                self.kind_metadata.push(KindEntry { kind: key, metadata: KindMetadata { description } });
                assert(self.metadata_entries() =~= old_entries.push((kv, dv)));
            },
        }
    }

    /// Records (or, for a missing or blank description, clears) the
    /// description of the upper-cased kind. Descriptions are stored trimmed.
    pub fn set_kind_description(&mut self, kind: &str, description: Option<String>)
        requires
            old(self).wf(),
        ensures
            final(self).wf(),
            final(self).view() == (ConfigView {
                kind_metadata: match description {
                    Some(d) => {
                        if trim(d@).len() == 0 {
                            old(self).view().kind_metadata.remove(uppercase(kind@))
                        } else {
                            old(self).view().kind_metadata.insert(uppercase(kind@), Some(trim(d@)))
                        }
                    },
                    None => old(self).view().kind_metadata.remove(uppercase(kind@)),
                },
                ..old(self).view()
            }),
    {
        let key = to_uppercase(kind);
        let trimmed: Option<String> = match &description {
            Some(d) => {
                let v = chars_of(d.as_str());
                let (lo, hi) = trim_bounds(v.as_slice());
                if lo == hi {
                    None
                } else {
                    Some(string_from_range(v.as_slice(), lo, hi))
                }
            },
            None => None,
        };
        let ghost old_entries = self.metadata_entries();
        let ghost old_view = self.view();
        let found = self.find_metadata(key.as_str());
        match trimmed {
            Some(t) => {
                self.put_metadata(key, Some(t));
            },
            None => {
                match found {
                    Some(i) => {
                        proof {
                            lemma_assoc_map_remove(old_entries, i as int);
                        }
                        self.kind_metadata.remove(i);
                        assert(self.metadata_entries() =~= old_entries.remove(i as int));
                    },
                    None => {
                        assert(assoc_map(old_entries).remove(key@) =~= assoc_map(old_entries));
                    },
                }
            },
        }
    }
}


// ---------------------------------------------------------------------------
// The stored form: a list of kinds, each with or without a description
// ---------------------------------------------------------------------------

/// The texts of a list of strings.
pub open spec fn texts(v: Seq<String>) -> Seq<Seq<char>> {
    v.map_values(|s: String| s@)
}

/// A stored allowed kind: a bare kind, or a kind with its description.
#[derive(Debug, PartialEq, Eq)]
pub enum AllowedKindEntry {
    Simple(String),
    Detailed { kind: String, description: Option<String> },
}

/// The abstract content of an [`AllowedKindEntry`].
pub enum AllowedKindEntryView {
    Simple(Seq<char>),
    Detailed(Seq<char>, Option<Seq<char>>),
}

impl View for AllowedKindEntry {
    type V = AllowedKindEntryView;

    open spec fn view(&self) -> AllowedKindEntryView {
        match self {
            AllowedKindEntry::Simple(k) => AllowedKindEntryView::Simple(k@),
            AllowedKindEntry::Detailed { kind, description } => AllowedKindEntryView::Detailed(
                kind@,
                opt_text(*description),
            ),
        }
    }
}

/// The kind of a stored entry.
pub open spec fn entry_kind(e: AllowedKindEntryView) -> Seq<char> {
    match e {
        AllowedKindEntryView::Simple(k) => k,
        AllowedKindEntryView::Detailed(k, _) => k,
    }
}

/// The entries as views.
pub open spec fn entries_view(es: Seq<AllowedKindEntry>) -> Seq<AllowedKindEntryView> {
    es.map_values(|e: AllowedKindEntry| e@)
}

/// The metadata stored entries describe: each detailed entry's description
/// under its kind, a later entry replacing an earlier one.
pub open spec fn entries_metadata(es: Seq<AllowedKindEntryView>) -> Map<Seq<char>, Option<Seq<char>>>
    decreases es.len(),
{
    if es.len() == 0 {
        Map::empty()
    } else {
        let m = entries_metadata(es.drop_last());
        match es.last() {
            AllowedKindEntryView::Simple(_) => m,
            AllowedKindEntryView::Detailed(k, d) => m.insert(k, d),
        }
    }
}

/// The stored entry of the allowed kind at position `i`: detailed when the
/// kind has metadata and does not occur earlier in the list, bare otherwise.
pub open spec fn listed_entry(
    kinds: Seq<Seq<char>>,
    meta: Map<Seq<char>, Option<Seq<char>>>,
    i: int,
) -> AllowedKindEntryView {
    let k = kinds[i];
    if meta.contains_key(k) && !kinds.take(i).contains(k) {
        AllowedKindEntryView::Detailed(k, meta[k])
    } else {
        AllowedKindEntryView::Simple(k)
    }
}

/// The stored entries of a configuration: one per allowed kind, in order
/// (see [`listed_entry`]), then one detailed entry per described kind that
/// is not allowed explicitly, in increasing order of kind.
pub open spec fn stores(c: ConfigView, es: Seq<AllowedKindEntryView>) -> bool {
    let kinds = c.allowed_kinds;
    let meta = c.kind_metadata;
    let n = kinds.len();
    let tail = es.skip(n as int);
    &&& n <= es.len()
    &&& forall|i: int| 0 <= i < n ==> #[trigger] es[i] == listed_entry(kinds, meta, i)
    &&& forall|i: int| 0 <= i < tail.len() ==> (#[trigger] tail[i]) == AllowedKindEntryView::Detailed(
        entry_kind(tail[i]),
        meta[entry_kind(tail[i])],
    )
    &&& forall|i: int, j: int|
        0 <= i < j < tail.len() ==> text_lt(entry_kind(#[trigger] tail[i]), entry_kind(#[trigger] tail[j]))
    &&& tail.map_values(|e: AllowedKindEntryView| entry_kind(e)).to_set() == Set::new(
        |k: Seq<char>| meta.contains_key(k) && !kinds.contains(k),
    )
}

/// Inserts `k` into a strictly increasing list of distinct kinds.
pub fn insert_sorted(v: &mut Vec<String>, k: String)
    requires
        forall|i: int, j: int| 0 <= i < j < old(v)@.len() ==> text_lt(old(v)@[i]@, old(v)@[j]@),
        forall|i: int| 0 <= i < old(v)@.len() ==> old(v)@[i]@ != k@,
    ensures
        forall|i: int, j: int| 0 <= i < j < final(v)@.len() ==> text_lt(final(v)@[i]@, final(v)@[j]@),
        texts(final(v)@).to_set() == texts(old(v)@).to_set().insert(k@),
        final(v)@.len() == old(v)@.len() + 1,
{
    let ghost ov = v@;
    let mut p: usize = 0;
    while p < v.len() && str_lt(v[p].as_str(), k.as_str())
        invariant
            p <= v@.len(),
            v@ == ov,
            forall|i: int| 0 <= i < p ==> text_lt(v@[i]@, k@),
        decreases v@.len() - p,
    {
        p = p + 1;
    }
    proof {
        if p < v@.len() {
            lemma_text_lt_total(v@[p as int]@, k@);
        }
    }
    v.insert(p, k);
    proof {
        let nv = v@;
        assert forall|i: int, j: int| 0 <= i < j < nv.len() implies text_lt(nv[i]@, nv[j]@) by {
            if i < p && j < p {
                assert(nv[i] == ov[i] && nv[j] == ov[j]);
            } else if i < p && j == p {
                assert(nv[i] == ov[i]);
            } else if i < p && j > p {
                assert(nv[i] == ov[i] && nv[j] == ov[j - 1]);
                assert(text_lt(ov[i]@, k@));
                lemma_text_lt_total(ov[p as int]@, k@);
                if p < j - 1 {
                    lemma_text_lt_trans(k@, ov[p as int]@, ov[j - 1]@);
                }
                lemma_text_lt_trans(ov[i]@, k@, ov[j - 1]@);
            } else if i == p {
                assert(nv[j] == ov[j - 1]);
                if p < j - 1 {
                    lemma_text_lt_trans(k@, ov[p as int]@, ov[j - 1]@);
                }
            } else {
                assert(nv[i] == ov[i - 1] && nv[j] == ov[j - 1]);
            }
        }
        assert(texts(nv).to_set() =~= texts(ov).to_set().insert(k@)) by {
            assert forall|x: Seq<char>| #[trigger] texts(nv).to_set().contains(x) == texts(ov).to_set().insert(k@).contains(x) by {
                let nm = texts(nv);
                let om = texts(ov);
                if nm.contains(x) {
                    let t = choose|t: int| 0 <= t < nm.len() && nm[t] == x;
                    if t < p {
                        assert(om[t] == x);
                    } else if t > p {
                        assert(om[t - 1] == x);
                    }
                }
                if om.contains(x) {
                    let t = choose|t: int| 0 <= t < om.len() && om[t] == x;
                    if t < p {
                        assert(nm[t] == x);
                    } else {
                        assert(nm[t + 1] == x);
                    }
                }
                if x == k@ {
                    assert(nm[p as int] == x);
                }
            }
        }
    }
}

impl Config {
    /// The configuration that stored entries and settings describe: every
    /// entry's kind is allowed, in order, and every detailed entry records
    /// its description.
    pub fn from_entries(
        entries: Vec<AllowedKindEntry>,
        digits: usize,
        allow_unrecognised: bool,
        subfolders_are_namespaces: bool,
    ) -> (r: Config)
        ensures
            r.wf(),
            r.view() == (ConfigView {
                allowed_kinds: entries_view(entries@).map_values(|e: AllowedKindEntryView| entry_kind(e)),
                kind_metadata: entries_metadata(entries_view(entries@)),
                digits: digits as nat,
                allow_unrecognised,
                subfolders_are_namespaces,
            }),
    {
        let ghost ev = entries_view(entries@);
        let mut c = Config {
            allowed_kinds: Vec::new(),
            kind_metadata: Vec::new(),
            digits,
            allow_unrecognised,
            subfolders_are_namespaces,
        };
        proof {
            assert(c.view().allowed_kinds =~= ev.take(0).map_values(|e: AllowedKindEntryView| entry_kind(e)));
            assert(c.view().kind_metadata =~= entries_metadata(ev.take(0)));
        }
        let mut entries = entries;
        let mut rest: Vec<AllowedKindEntry> = Vec::new();
        // Take the entries in order: reverse, then pop from the end.
        while entries.len() > 0
            invariant
                rest@.len() + entries@.len() == ev.len(),
                forall|t: int| 0 <= t < entries@.len() ==> #[trigger] entries@[t]@ == ev[t],
                forall|t: int| 0 <= t < rest@.len() ==> #[trigger] rest@[t]@ == ev[ev.len() - 1 - t],
            decreases entries@.len(),
        {
            let e = entries.pop().unwrap();
            rest.push(e);
        }
        let n = rest.len();
        let mut i: usize = 0;
        while rest.len() > 0
            invariant
                n == ev.len(),
                i + rest@.len() == n,
                forall|t: int| 0 <= t < rest@.len() ==> #[trigger] rest@[t]@ == ev[n - 1 - t],
                c.wf(),
                c.view().allowed_kinds == ev.take(i as int).map_values(|e: AllowedKindEntryView| entry_kind(e)),
                c.view().kind_metadata == entries_metadata(ev.take(i as int)),
                c.view().digits == digits as nat,
                c.view().allow_unrecognised == allow_unrecognised,
                c.view().subfolders_are_namespaces == subfolders_are_namespaces,
            decreases rest@.len(),
        {
            let e = rest.pop().unwrap();
            proof {
                assert(e@ == ev[i as int]);
                assert(ev.take(i + 1).drop_last() =~= ev.take(i as int));
                assert(ev.take(i + 1).last() == ev[i as int]);
            }
            let ghost before = c.view();
            match e {
                AllowedKindEntry::Simple(k) => {
                    let ghost kv = k@;
                    c.allowed_kinds.push(k);
                    proof {
                        assert(c.view().allowed_kinds =~= before.allowed_kinds.push(kv));
                    }
                },
                AllowedKindEntry::Detailed { kind, description } => {
                    let ghost kv = kind@;
                    let copy = copy_string(&kind);
                    c.allowed_kinds.push(kind);
                    proof {
                        assert(c.view().allowed_kinds =~= before.allowed_kinds.push(kv));
                    }
                    c.put_metadata(copy, description);
                },
            }
            proof {
                assert(c.view().allowed_kinds =~= ev.take(i + 1).map_values(|e: AllowedKindEntryView| entry_kind(e)));
            }
            i = i + 1;
        }
        proof {
            assert(ev.take(n as int) =~= ev);
        }
        c
    }

    /// The stored entries of this configuration (see [`stores`]).
    pub fn to_entries(&self) -> (r: Vec<AllowedKindEntry>)
        requires
            self.wf(),
        ensures
            stores(self.view(), entries_view(r@)),
    {
        let ghost kinds = self.view().allowed_kinds;
        let ghost meta = self.view().kind_metadata;
        let ghost me = self.metadata_entries();
        let mut out: Vec<AllowedKindEntry> = Vec::new();
        let mut i: usize = 0;
        while i < self.allowed_kinds.len()
            invariant
                self.wf(),
                kinds == self.view().allowed_kinds,
                meta == self.view().kind_metadata,
                i <= kinds.len(),
                out@.len() == i,
                forall|t: int| 0 <= t < i ==> #[trigger] entries_view(out@)[t] == listed_entry(kinds, meta, t),
            decreases kinds.len() - i,
        {
            let k = &self.allowed_kinds[i];
            proof {
                assert(kinds[i as int] == k@);
            }
            let earlier = self.position_of_kind(k.as_str());
            let first = match earlier {
                Some(p) => p == i,
                None => false,
            };
            proof {
                assert(first == !kinds.take(i as int).contains(k@)) by {
                    if kinds.take(i as int).contains(k@) {
                        let t = choose|t: int| 0 <= t < i && kinds.take(i as int)[t] == k@;
                        assert(kinds[t] == k@);
                    }
                    if let Some(p) = earlier {
                        if p < i {
                            assert(kinds.take(i as int)[p as int] == k@);
                        }
                    }
                }
            }
            let entry = if first {
                match self.find_metadata(k.as_str()) {
                    Some(m) => {
                        proof {
                            lemma_assoc_map_at(self.metadata_entries(), m as int);
                        }
                        AllowedKindEntry::Detailed {
                            kind: copy_string(k),
                            description: self.kind_metadata[m].metadata.clone().description,
                        }
                    },
                    None => {
                        proof {
                            assert(!meta.contains_key(k@));
                        }
                        AllowedKindEntry::Simple(copy_string(k))
                    },
                }
            } else {
                AllowedKindEntry::Simple(copy_string(k))
            };
            let ghost o = out@;
            out.push(entry);
            proof {
                assert forall|t: int| 0 <= t < i + 1 implies #[trigger] entries_view(out@)[t] == listed_entry(kinds, meta, t) by {
                    if t < i {
                        assert(out@[t] == o[t]);
                        assert(entries_view(o)[t] == listed_entry(kinds, meta, t));
                    }
                }
            }
            i = i + 1;
        }
        // The described kinds that are not allowed explicitly, in order.
        let mut rest: Vec<String> = Vec::new();
        let mut j: usize = 0;
        while j < self.kind_metadata.len()
            invariant
                self.wf(),
                kinds == self.view().allowed_kinds,
                meta == self.view().kind_metadata,
                me == self.metadata_entries(),
                j <= me.len(),
                forall|a: int, b: int| 0 <= a < b < rest@.len() ==> text_lt(rest@[a]@, rest@[b]@),
                forall|x: Seq<char>| #[trigger] texts(rest@).to_set().contains(x) <==> (exists|t: int|
                    0 <= t < j && me[t].0 == x) && !kinds.contains(x),
            decreases me.len() - j,
        {
            let k = &self.kind_metadata[j].kind;
            proof {
                assert(me[j as int].0 == k@);
            }
            if self.position_of_kind(k.as_str()).is_none() {
                proof {
                    assert forall|t: int| 0 <= t < rest@.len() implies rest@[t]@ != k@ by {
                        let x = rest@[t]@;
                        assert(texts(rest@)[t] == x);
                        assert(texts(rest@).to_set().contains(x));
                        let u = choose|u: int| 0 <= u < j && me[u].0 == x;
                        if x == k@ {
                            assert(u != j);
                        }
                    }
                }
                insert_sorted(&mut rest, copy_string(k));
            }
            proof {
                assert forall|x: Seq<char>| #[trigger] texts(rest@).to_set().contains(x) <==> (exists|t: int|
                    0 <= t < j + 1 && me[t].0 == x) && !kinds.contains(x) by {
                    if exists|t: int| 0 <= t < j + 1 && me[t].0 == x {
                        let t = choose|t: int| 0 <= t < j + 1 && me[t].0 == x;
                        if t < j {
                            assert(exists|u: int| 0 <= u < j && me[u].0 == x);
                        }
                    }
                    if exists|t: int| 0 <= t < j && me[t].0 == x {
                        let t = choose|t: int| 0 <= t < j && me[t].0 == x;
                        assert(0 <= t < j + 1 && me[t].0 == x);
                    }
                }
            }
            j = j + 1;
        }
        proof {
            assert forall|x: Seq<char>| #[trigger] texts(rest@).to_set().contains(x) implies meta.contains_key(x) by {
                let u = choose|u: int| 0 <= u < me.len() && me[u].0 == x;
                lemma_assoc_map_at(me, u);
            }
        }
        let tail_start = out.len();
        let mut r: usize = 0;
        while r < rest.len()
            invariant
                self.wf(),
                kinds == self.view().allowed_kinds,
                meta == self.view().kind_metadata,
                me == self.metadata_entries(),
                tail_start == kinds.len(),
                out@.len() == tail_start + r,
                r <= rest@.len(),
                forall|t: int| 0 <= t < tail_start ==> #[trigger] entries_view(out@)[t] == listed_entry(kinds, meta, t),
                forall|t: int| 0 <= t < r ==> #[trigger] entries_view(out@)[tail_start + t] == AllowedKindEntryView::Detailed(
                    rest@[t]@,
                    meta[rest@[t]@],
                ),
                forall|x: Seq<char>| #[trigger] texts(rest@).to_set().contains(x) ==> meta.contains_key(x),
                forall|a: int, b: int| 0 <= a < b < rest@.len() ==> text_lt(rest@[a]@, rest@[b]@),
                forall|x: Seq<char>| #[trigger] texts(rest@).to_set().contains(x) <==> (exists|t: int|
                    0 <= t < me.len() && me[t].0 == x) && !kinds.contains(x),
            decreases rest@.len() - r,
        {
            let k = &rest[r];
            proof {
                assert(texts(rest@)[r as int] == k@);
                assert(texts(rest@).to_set().contains(k@));
            }
            let m = match self.find_metadata(k.as_str()) {
                Some(m) => m,
                None => {
                    proof {
                        assert(false);
                    }
                    0
                },
            };
            proof {
                lemma_assoc_map_at(self.metadata_entries(), m as int);
            }
            let entry = AllowedKindEntry::Detailed {
                kind: copy_string(k),
                description: self.kind_metadata[m].metadata.clone().description,
            };
            let ghost o = out@;
            out.push(entry);
            proof {
                assert forall|t: int| 0 <= t < tail_start implies #[trigger] entries_view(out@)[t] == listed_entry(kinds, meta, t) by {
                    assert(out@[t] == o[t]);
                    assert(entries_view(o)[t] == listed_entry(kinds, meta, t));
                }
                assert forall|t: int| 0 <= t < r + 1 implies #[trigger] entries_view(out@)[tail_start + t] == AllowedKindEntryView::Detailed(
                    rest@[t]@,
                    meta[rest@[t]@],
                ) by {
                    if t < r {
                        assert(out@[tail_start + t] == o[tail_start + t]);
                        assert(entries_view(o)[tail_start + t] == AllowedKindEntryView::Detailed(rest@[t]@, meta[rest@[t]@]));
                    }
                }
            }
            r = r + 1;
        }
        proof {
            let ev = entries_view(out@);
            let n = kinds.len();
            let tail = ev.skip(n as int);
            assert(n <= ev.len());
            assert(tail.len() == rest@.len());
            assert forall|i: int| 0 <= i < n implies #[trigger] ev[i] == listed_entry(kinds, meta, i) by {
                assert(entries_view(out@)[i] == listed_entry(kinds, meta, i));
            }
            assert forall|t: int| 0 <= t < tail.len() implies #[trigger] entry_kind(tail[t]) == rest@[t]@ by {
                assert(tail[t] == ev[n + t]);
                assert(entries_view(out@)[tail_start + t] == AllowedKindEntryView::Detailed(rest@[t]@, meta[rest@[t]@]));
            }
            assert forall|t: int| 0 <= t < tail.len() implies (#[trigger] tail[t]) == AllowedKindEntryView::Detailed(
                entry_kind(tail[t]),
                meta[entry_kind(tail[t])],
            ) by {
                assert(tail[t] == ev[n + t]);
            }
            assert forall|a: int, b: int| 0 <= a < b < tail.len() implies text_lt(
                entry_kind(#[trigger] tail[a]),
                entry_kind(#[trigger] tail[b]),
            ) by {
                assert(tail[a] == ev[n + a]);
                assert(tail[b] == ev[n + b]);
                assert(entry_kind(tail[a]) == rest@[a]@);
                assert(entry_kind(tail[b]) == rest@[b]@);
            }
            let tk = tail.map_values(|e: AllowedKindEntryView| entry_kind(e));
            assert(tk =~= texts(rest@));
            assert(texts(rest@).to_set() =~= Set::new(|k: Seq<char>| meta.contains_key(k) && !kinds.contains(k))) by {
                assert forall|k: Seq<char>| #[trigger] texts(rest@).to_set().contains(k) == (meta.contains_key(k)
                    && !kinds.contains(k)) by {
                    if meta.contains_key(k) && !kinds.contains(k) {
                        assert(has_key(me, k));
                    }
                    if texts(rest@).to_set().contains(k) {
                        let u = choose|u: int| 0 <= u < me.len() && me[u].0 == k;
                        lemma_assoc_map_at(me, u);
                    }
                }
            }
        }
        proof {
            assert(stores(self.view(), entries_view(out@)));
        }
        out
    }
}


proof fn lemma_listed_metadata(c: ConfigView, es: Seq<AllowedKindEntryView>, i: int)
    requires
        stores(c, es),
        0 <= i <= c.allowed_kinds.len(),
    ensures
        entries_metadata(es.take(i)) == c.kind_metadata.restrict(c.allowed_kinds.take(i).to_set()),
    decreases i,
{
    let kinds = c.allowed_kinds;
    let meta = c.kind_metadata;
    if i == 0 {
        assert(es.take(0) =~= Seq::<AllowedKindEntryView>::empty());
        assert(meta.restrict(kinds.take(0).to_set()) =~= Map::<Seq<char>, Option<Seq<char>>>::empty());
    } else {
        lemma_listed_metadata(c, es, i - 1);
        let k = kinds[i - 1];
        assert(es.take(i).drop_last() =~= es.take(i - 1));
        assert(es.take(i).last() == es[i - 1]);
        assert(es[i - 1] == listed_entry(kinds, meta, i - 1));
        assert(kinds.take(i) =~= kinds.take(i - 1).push(k));
        kinds.take(i - 1).lemma_push_to_set_commute(k);
        assert(kinds.take(i).to_set() =~= kinds.take(i - 1).to_set().insert(k));
        if meta.contains_key(k) && !kinds.take(i - 1).contains(k) {
            assert(meta.restrict(kinds.take(i).to_set()) =~= meta.restrict(kinds.take(i - 1).to_set()).insert(k, meta[k]));
        } else if kinds.take(i - 1).contains(k) {
            assert(kinds.take(i - 1).to_set().contains(k));
            assert(kinds.take(i).to_set() =~= kinds.take(i - 1).to_set());
        } else {
            assert(meta.restrict(kinds.take(i).to_set()) =~= meta.restrict(kinds.take(i - 1).to_set()));
        }
    }
}

/// Storing a configuration whose described kinds are all allowed and
/// reading the stored entries back gives the same kinds, in order, and the
/// same metadata.
pub proof fn lemma_entries_roundtrip(c: ConfigView, es: Seq<AllowedKindEntryView>)
    requires
        stores(c, es),
        forall|k: Seq<char>| #[trigger] c.kind_metadata.contains_key(k) ==> c.allowed_kinds.contains(k),
    ensures
        es.map_values(|e: AllowedKindEntryView| entry_kind(e)) == c.allowed_kinds,
        entries_metadata(es) == c.kind_metadata,
{
    let kinds = c.allowed_kinds;
    let meta = c.kind_metadata;
    let n = kinds.len();
    let tail = es.skip(n as int);
    let tk = tail.map_values(|e: AllowedKindEntryView| entry_kind(e));
    if tail.len() > 0 {
        assert(tk.to_set().contains(tk[0]));
        assert(Set::new(|k: Seq<char>| meta.contains_key(k) && !kinds.contains(k)).contains(tk[0]));
    }
    assert(es.len() == n);
    let ek = es.map_values(|e: AllowedKindEntryView| entry_kind(e));
    assert forall|i: int| 0 <= i < n implies #[trigger] ek[i] == kinds[i] by {
        assert(es[i] == listed_entry(kinds, meta, i));
    }
    assert(ek =~= kinds);
    lemma_listed_metadata(c, es, n as int);
    assert(es.take(n as int) =~= es);
    assert(kinds.take(n as int) =~= kinds);
    assert(meta.restrict(kinds.to_set()) =~= meta) by {
        assert forall|k: Seq<char>| meta.contains_key(k) implies kinds.to_set().contains(k) by {
            assert(kinds.contains(k));
        }
    }
}

} // verus!
