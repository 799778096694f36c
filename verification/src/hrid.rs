//! Human-readable identifiers (HRIDs) such as `USR-001` or `auth-api-SYS-005`.
//!
//! An HRID is `{NAMESPACE-}*{KIND}-{ID}`: zero or more alphabetic namespace
//! segments, an upper-case kind and a positive decimal id. Parsing follows
//! the structure of the string exactly as written; rendering pads the id
//! with zeros to a configurable width.

use vstd::prelude::*;

use crate::text::{
    append_chars, chars_eq, string_from_chars, char_is_ascii_alpha, char_is_ascii_upper, chars_of, is_ascii_alpha, is_ascii_upper,
    join, push_str, string_of, split, split_on, find_char, lemma_find_char, lemma_find_char_at, char_is_ascii_digit, is_ascii_digit,
};

verus! {

// ---------------------------------------------------------------------------
// Validity of the components
// ---------------------------------------------------------------------------

/// A namespace segment: non-empty, ASCII letters only.
pub open spec fn valid_segment(s: Seq<char>) -> bool {
    s.len() > 0 && forall|i: int| 0 <= i < s.len() ==> is_ascii_alpha(#[trigger] s[i])
}

/// A kind: non-empty, upper-case ASCII letters only.
pub open spec fn valid_kind(s: Seq<char>) -> bool {
    s.len() > 0 && forall|i: int| 0 <= i < s.len() ==> is_ascii_upper(#[trigger] s[i])
}

/// The message carried by a rejected namespace segment.
pub open spec fn segment_error_message() -> Seq<char> {
    "namespace segment must be non-empty and contain only letters (a-z, A-Z)"@
}

fn all_alpha(v: &[char]) -> (r: bool)
    ensures
        r == (forall|i: int| 0 <= i < v@.len() ==> is_ascii_alpha(#[trigger] v@[i])),
{
    let mut i: usize = 0;
    while i < v.len()
        invariant
            i <= v@.len(),
            forall|j: int| 0 <= j < i ==> is_ascii_alpha(#[trigger] v@[j]),
        decreases v@.len() - i,
    {
        if !char_is_ascii_alpha(v[i]) {
            return false;
        }
        i = i + 1;
    }
    true
}

fn all_upper(v: &[char]) -> (r: bool)
    ensures
        r == (forall|i: int| 0 <= i < v@.len() ==> is_ascii_upper(#[trigger] v@[i])),
{
    let mut i: usize = 0;
    while i < v.len()
        invariant
            i <= v@.len(),
            forall|j: int| 0 <= j < i ==> is_ascii_upper(#[trigger] v@[j]),
        decreases v@.len() - i,
    {
        if !char_is_ascii_upper(v[i]) {
            return false;
        }
        i = i + 1;
    }
    true
}

// ---------------------------------------------------------------------------
// NamespaceSegment
// ---------------------------------------------------------------------------

/// A validated namespace segment (letters only, either case).
#[derive(Debug, PartialEq, Eq, Hash, PartialOrd, Ord)]
pub struct NamespaceSegment(String);

impl View for NamespaceSegment {
    type V = Seq<char>;

    closed spec fn view(&self) -> Seq<char> {
        self.0@
    }
}

impl Clone for NamespaceSegment {
    fn clone(&self) -> (r: Self)
        ensures
            r@ == self@,
    {
        proof {
            use_type_invariant(self);
        }
        NamespaceSegment(self.0.clone())
    }
}

impl NamespaceSegment {
    #[verifier::type_invariant]
    spec fn inv(&self) -> bool {
        valid_segment(self.0@)
    }

    /// Creates a namespace segment, rejecting empty strings and any
    /// character that is not an ASCII letter.
    pub fn new(s: String) -> (r: Result<Self, String>)
        ensures
            r is Ok <==> valid_segment(s@),
            r matches Ok(seg) ==> seg@ == s@,
            r matches Err(msg) ==> msg@ == segment_error_message(),
    {
        let v = chars_of(s.as_str());
        if v.len() == 0 || !all_alpha(v.as_slice()) {
            return Err(string_of("namespace segment must be non-empty and contain only letters (a-z, A-Z)"));
        }
        Ok(NamespaceSegment(s))
    }

    /// Returns the segment text.
    pub fn as_str(&self) -> (r: &str)
        ensures
            r@ == self@,
            valid_segment(self@),
    {
        proof {
            use_type_invariant(self);
        }
        self.0.as_str()
    }
}

// ---------------------------------------------------------------------------
// KindString
// ---------------------------------------------------------------------------

/// Error for a kind that is empty or not made of upper-case letters.
#[derive(Debug, PartialEq, Eq)]
pub struct InvalidKindError(String);

impl View for InvalidKindError {
    type V = Seq<char>;

    closed spec fn view(&self) -> Seq<char> {
        self.0@
    }
}

/// The message of an [`InvalidKindError`] for the rejected text `s`.
pub open spec fn invalid_kind_message(s: Seq<char>) -> Seq<char> {
    "Invalid kind string '"@ + s
        + "': must be non-empty and contain only uppercase letters (A-Z)"@
}

impl InvalidKindError {
    /// The rejected text.
    pub fn value(&self) -> (r: &str)
        ensures
            r@ == self@,
    {
        self.0.as_str()
    }

    /// The human-readable message.
    pub fn to_string(&self) -> (r: String)
        ensures
            r@ == invalid_kind_message(self@),
    {
        let mut r = string_of("Invalid kind string '");
        push_str(&mut r, self.0.as_str());
        push_str(&mut r, "': must be non-empty and contain only uppercase letters (A-Z)");
        r
    }
}

/// A validated kind: non-empty, upper-case ASCII letters.
#[derive(Debug, PartialEq, Eq, PartialOrd, Ord)]
pub struct KindString(String);

impl View for KindString {
    type V = Seq<char>;

    closed spec fn view(&self) -> Seq<char> {
        self.0@
    }
}

impl Clone for KindString {
    fn clone(&self) -> (r: Self)
        ensures
            r@ == self@,
    {
        proof {
            use_type_invariant(self);
        }
        KindString(self.0.clone())
    }
}

impl KindString {
    #[verifier::type_invariant]
    spec fn inv(&self) -> bool {
        valid_kind(self.0@)
    }

    /// Creates a kind, rejecting empty strings and anything but `A`..=`Z`.
    pub fn new(s: String) -> (r: Result<Self, InvalidKindError>)
        ensures
            r is Ok <==> valid_kind(s@),
            r matches Ok(k) ==> k@ == s@,
            r matches Err(e) ==> e@ == s@,
    {
        let v = chars_of(s.as_str());
        if v.len() == 0 || !all_upper(v.as_slice()) {
            return Err(InvalidKindError(s));
        }
        Ok(KindString(s))
    }

    /// Returns the kind text.
    pub fn as_str(&self) -> (r: &str)
        ensures
            r@ == self@,
            valid_kind(self@),
    {
        proof {
            use_type_invariant(self);
        }
        self.0.as_str()
    }
}

// ---------------------------------------------------------------------------
// Hrid
// ---------------------------------------------------------------------------

/// The mathematical content of an HRID.
pub struct SpecHrid {
    pub namespace: Seq<Seq<char>>,
    pub kind: Seq<char>,
    pub id: nat,
}

/// Every component of an HRID is well formed.
pub open spec fn valid_hrid(h: SpecHrid) -> bool {
    &&& forall|i: int| 0 <= i < h.namespace.len() ==> valid_segment(#[trigger] h.namespace[i])
    &&& valid_kind(h.kind)
    &&& 0 < h.id <= usize::MAX
}

/// A human-readable identifier of a requirement.
#[derive(Debug, PartialEq, Eq, PartialOrd, Ord)]
pub struct Hrid {
    namespace: Vec<NamespaceSegment>,
    kind: KindString,
    id: usize,
}

impl View for Hrid {
    type V = SpecHrid;

    closed spec fn view(&self) -> SpecHrid {
        SpecHrid {
            namespace: self.namespace@.map_values(|s: NamespaceSegment| s@),
            kind: self.kind@,
            id: self.id as nat,
        }
    }
}

fn clone_segments(v: &Vec<NamespaceSegment>) -> (r: Vec<NamespaceSegment>)
    ensures
        r@.map_values(|s: NamespaceSegment| s@) == v@.map_values(|s: NamespaceSegment| s@),
{
    let mut r: Vec<NamespaceSegment> = Vec::new();
    let mut i: usize = 0;
    while i < v.len()
        invariant
            i <= v@.len(),
            r@.len() == i,
            forall|j: int| 0 <= j < i ==> #[trigger] r@[j]@ == v@[j]@,
        decreases v@.len() - i,
    {
        r.push(v[i].clone());
        i = i + 1;
    }
    assert(r@.map_values(|s: NamespaceSegment| s@) =~= v@.map_values(|s: NamespaceSegment| s@));
    r
}

impl Hrid {
    #[verifier::type_invariant]
    spec fn inv(&self) -> bool {
        self.id > 0
    }
}

impl Clone for Hrid {
    fn clone(&self) -> (r: Self)
        ensures
            r@ == self@,
    {
        proof {
            use_type_invariant(self);
        }
        Hrid { namespace: clone_segments(&self.namespace), kind: self.kind.clone(), id: self.id }
    }
}

/// The decimal digit character for `d < 10`.
pub open spec fn digit_char(d: nat) -> char {
    if d == 0 {
        '0'
    } else if d == 1 {
        '1'
    } else if d == 2 {
        '2'
    } else if d == 3 {
        '3'
    } else if d == 4 {
        '4'
    } else if d == 5 {
        '5'
    } else if d == 6 {
        '6'
    } else if d == 7 {
        '7'
    } else if d == 8 {
        '8'
    } else {
        '9'
    }
}

/// The numeric value of a digit character.
pub open spec fn digit_value(c: char) -> nat {
    ((c as int) - ('0' as int)) as nat
}

/// Decimal representation without leading zeros.
pub open spec fn decimal(n: nat) -> Seq<char>
    decreases n,
{
    if n < 10 {
        seq![digit_char(n)]
    } else {
        decimal(n / 10).push(digit_char(n % 10))
    }
}

/// `format!("{:0width$}", n)`: zero-padded decimal.
pub open spec fn zero_padded(n: nat, width: nat) -> Seq<char> {
    let d = decimal(n);
    if d.len() >= width {
        d
    } else {
        Seq::new((width - d.len()) as nat, |_i: int| '0') + d
    }
}

/// The namespace and kind joined by `-` (e.g. `AUTH-USR`).
pub open spec fn spec_prefix(h: SpecHrid) -> Seq<char> {
    if h.namespace.len() == 0 {
        h.kind
    } else {
        join(h.namespace, "-"@) + "-"@ + h.kind
    }
}

/// The rendering of an HRID with its id padded to `digits` digits.
pub open spec fn spec_display(h: SpecHrid, digits: nat) -> Seq<char> {
    spec_prefix(h) + "-"@ + zero_padded(h.id, digits)
}

/// Appends the decimal digits of `n`.
fn push_decimal(out: &mut Vec<char>, n: usize)
    ensures
        final(out)@ == old(out)@ + decimal(n as nat),
    decreases n,
{
    if n >= 10 {
        push_decimal(out, n / 10);
    }
    let d = n % 10;
    let c = if d == 0 {
        '0'
    } else if d == 1 {
        '1'
    } else if d == 2 {
        '2'
    } else if d == 3 {
        '3'
    } else if d == 4 {
        '4'
    } else if d == 5 {
        '5'
    } else if d == 6 {
        '6'
    } else if d == 7 {
        '7'
    } else if d == 8 {
        '8'
    } else {
        '9'
    };
    let ghost before = out@;
    out.push(c);
    proof {
        if n < 10 {
            assert(n % 10 == n);
        }
    }
}

/// The decimal digits of `n`, left-padded with zeros to `width`.
pub fn zero_padded_decimal(n: usize, width: usize) -> (r: Vec<char>)
    ensures
        r@ == zero_padded(n as nat, width as nat),
{
    let mut digits: Vec<char> = Vec::new();
    push_decimal(&mut digits, n);
    assert(digits@ =~= decimal(n as nat));
    if digits.len() >= width {
        return digits;
    }
    let mut r: Vec<char> = Vec::new();
    let pad = width - digits.len();
    let mut i: usize = 0;
    while i < pad
        invariant
            i <= pad,
            r@ == Seq::new(i as nat, |_i: int| '0'),
        decreases pad - i,
    {
        r.push('0');
        i = i + 1;
        assert(r@ =~= Seq::new(i as nat, |_i: int| '0'));
    }
    append_chars(&mut r, digits.as_slice());
    r
}


// ---------------------------------------------------------------------------
// Hrid construction, accessors and rendering
// ---------------------------------------------------------------------------

impl Hrid {
    /// An HRID without namespace.
    pub fn new(kind: KindString, id: usize) -> (r: Self)
        requires
            id > 0,
        ensures
            r@ == (SpecHrid { namespace: Seq::empty(), kind: kind@, id: id as nat }),
    {
        let r = Hrid { namespace: Vec::new(), kind, id };
        assert(r@.namespace =~= Seq::<Seq<char>>::empty());
        r
    }

    /// An HRID with the given namespace.
    pub fn new_with_namespace(namespace: Vec<NamespaceSegment>, kind: KindString, id: usize) -> (r:
        Self)
        requires
            id > 0,
        ensures
            r@ == (SpecHrid {
                namespace: namespace@.map_values(|s: NamespaceSegment| s@),
                kind: kind@,
                id: id as nat,
            }),
    {
        Hrid { namespace, kind, id }
    }

    /// The namespace segments.
    pub fn namespace(&self) -> (r: Vec<&str>)
        ensures
            r@.len() == self@.namespace.len(),
            forall|i: int| 0 <= i < r@.len() ==> #[trigger] r@[i]@ == self@.namespace[i],
    {
        let mut r: Vec<&str> = Vec::new();
        let mut i: usize = 0;
        while i < self.namespace.len()
            invariant
                i <= self.namespace@.len(),
                r@.len() == i,
                forall|j: int| 0 <= j < i ==> #[trigger] r@[j]@ == self.namespace@[j]@,
            decreases self.namespace@.len() - i,
        {
            r.push(self.namespace[i].as_str());
            i = i + 1;
        }
        r
    }

    /// The namespace segments as owned values.
    pub fn namespace_segments(&self) -> (r: &[NamespaceSegment])
        ensures
            r@.map_values(|s: NamespaceSegment| s@) == self@.namespace,
    {
        self.namespace.as_slice()
    }

    /// The kind.
    pub fn kind(&self) -> (r: &str)
        ensures
            r@ == self@.kind,
    {
        self.kind.as_str()
    }

    /// The kind as a validated value.
    pub fn kind_string(&self) -> (r: &KindString)
        ensures
            r@ == self@.kind,
    {
        &self.kind
    }

    /// Every HRID is well formed: alphabetic namespace segments, an
    /// upper-case kind and a positive id (the invariants its parts keep).
    pub fn well_formed(&self)
        ensures
            valid_hrid(self@),
    {
        proof {
            use_type_invariant(self);
            use_type_invariant(&self.kind);
        }
        let mut i: usize = 0;
        while i < self.namespace.len()
            invariant
                i <= self.namespace@.len(),
                forall|j: int| 0 <= j < i ==> valid_segment(#[trigger] self.namespace@[j]@),
            decreases self.namespace@.len() - i,
        {
            let seg = &self.namespace[i];
            proof {
                use_type_invariant(seg);
            }
            i = i + 1;
        }
        proof {
            assert forall|j: int| 0 <= j < self@.namespace.len() implies valid_segment(#[trigger] self@.namespace[j]) by {
                assert(self@.namespace[j] == self.namespace@[j]@);
            }
        }
    }

    /// The numeric id.
    pub fn id(&self) -> (r: usize)
        ensures
            r == self@.id,
            r > 0,
    {
        proof {
            use_type_invariant(self);
        }
        self.id
    }

    fn prefix_chars(&self) -> (r: Vec<char>)
        ensures
            r@ == spec_prefix(self@),
    {
        proof {
            reveal_strlit("-");
        }
        let mut r: Vec<char> = Vec::new();
        let n = self.namespace.len();
        let mut i: usize = 0;
        while i < n
            invariant
                n == self.namespace@.len(),
                i <= n,
                r@ == join(self@.namespace.take(i as int), "-"@),
            decreases n - i,
        {
            let ghost prev = self@.namespace.take(i as int);
            let ghost next = self@.namespace.take(i + 1);
            proof {
                assert(next.drop_last() =~= prev);
                assert(next.last() == self.namespace@[i as int]@);
            }
            if i > 0 {
                r.push('-');
                proof {
                    reveal_strlit("-");
                }
            }
            let seg = chars_of(self.namespace[i].as_str());
            append_chars(&mut r, seg.as_slice());
            proof {
                if i == 0 {
                    assert(next.len() == 1);
                    assert(r@ =~= next[0]);
                } else {
                    assert(r@ =~= join(prev, "-"@) + "-"@ + next.last());
                }
            }
            i = i + 1;
        }
        assert(self@.namespace.take(n as int) =~= self@.namespace);
        let kind = chars_of(self.kind.as_str());
        if n == 0 {
            return kind;
        }
        r.push('-');
        append_chars(&mut r, kind.as_slice());
        assert(r@ =~= join(self@.namespace, "-"@) + "-"@ + self@.kind);
        r
    }

    /// The namespace and kind without the id, e.g. `AUTH-USR`.
    pub fn prefix(&self) -> (r: String)
        ensures
            r@ == spec_prefix(self@),
    {
        let v = self.prefix_chars();
        string_from_chars(v.as_slice())
    }

    /// The HRID text with the id padded to `digits` digits.
    pub fn to_string_with_digits(&self, digits: usize) -> (r: String)
        ensures
            r@ == spec_display(self@, digits as nat),
    {
        proof {
            reveal_strlit("-");
        }
        let mut v = self.prefix_chars();
        v.push('-');
        let id = zero_padded_decimal(self.id, digits);
        append_chars(&mut v, id.as_slice());
        assert(v@ =~= spec_prefix(self@) + "-"@ + zero_padded(self@.id, digits as nat));
        string_from_chars(v.as_slice())
    }

    /// A displayable form of the HRID with the id padded to `digits` digits.
    pub fn display(&self, digits: usize) -> (r: FormattedHrid<'_>)
        ensures
            r.hrid == self,
            r.digits == digits,
    {
        FormattedHrid { hrid: self, digits }
    }

    /// Equality of the namespaces and kinds, ignoring the ids.
    pub fn same_prefix(&self, other: &Hrid) -> (r: bool)
        ensures
            r == (self@.namespace == other@.namespace && self@.kind == other@.kind),
    {
        let a = chars_of(self.kind.as_str());
        let b = chars_of(other.kind.as_str());
        if !chars_eq(a.as_slice(), b.as_slice()) {
            return false;
        }
        if self.namespace.len() != other.namespace.len() {
            assert(self@.namespace.len() != other@.namespace.len());
            return false;
        }
        let mut i: usize = 0;
        while i < self.namespace.len()
            invariant
                self.namespace@.len() == other.namespace@.len(),
                i <= self.namespace@.len(),
                forall|j: int| 0 <= j < i ==> self.namespace@[j]@ == other.namespace@[j]@,
            decreases self.namespace@.len() - i,
        {
            let x = chars_of(self.namespace[i].as_str());
            let y = chars_of(other.namespace[i].as_str());
            if !chars_eq(x.as_slice(), y.as_slice()) {
                assert(self@.namespace[i as int] != other@.namespace[i as int]);
                return false;
            }
            i = i + 1;
        }
        assert(self@.namespace =~= other@.namespace);
        true
    }

    /// Equality of the identifiers.
    pub fn same_as(&self, other: &Hrid) -> (r: bool)
        ensures
            r == (self@ == other@),
    {
        if self.id != other.id {
            return false;
        }
        self.same_prefix(other)
    }
}

/// An HRID paired with the width its id is rendered at.
#[derive(Debug, Clone, Copy)]
pub struct FormattedHrid<'a> {
    pub hrid: &'a Hrid,
    pub digits: usize,
}

impl<'a> FormattedHrid<'a> {
    /// The rendered text, e.g. `USR-042` for three digits.
    pub fn to_string(&self) -> (r: String)
        ensures
            r@ == spec_display(self.hrid@, self.digits as nat),
    {
        self.hrid.to_string_with_digits(self.digits)
    }
}


// ---------------------------------------------------------------------------
// Parsing
// ---------------------------------------------------------------------------

/// The value of a run of decimal digits.
pub open spec fn digits_value(d: Seq<char>) -> nat
    decreases d.len(),
{
    if d.len() == 0 {
        0
    } else {
        digits_value(d.drop_last()) * 10 + digit_value(d.last())
    }
}

/// Every character is a decimal digit.
pub open spec fn all_digits(d: Seq<char>) -> bool {
    forall|i: int| 0 <= i < d.len() ==> is_ascii_digit(#[trigger] d[i])
}

/// The digits of an unsigned number: one leading `+` is allowed.
pub open spec fn unsigned_digits(t: Seq<char>) -> Seq<char> {
    if t.len() > 0 && t[0] == '+' {
        t.drop_first()
    } else {
        t
    }
}

/// `usize::from_str`: an optional `+`, at least one digit, digits only, and
/// a value that fits in `usize`.
pub open spec fn parse_usize(t: Seq<char>) -> Option<nat> {
    let d = unsigned_digits(t);
    if d.len() == 0 || !all_digits(d) || digits_value(d) > usize::MAX {
        None
    } else {
        Some(digits_value(d))
    }
}

proof fn lemma_digits_value_prefix(d: Seq<char>, k: int)
    requires
        0 <= k <= d.len(),
    ensures
        digits_value(d.take(k)) <= digits_value(d),
    decreases d.len(),
{
    if k < d.len() {
        assert(d.drop_last().take(k) =~= d.take(k));
        lemma_digits_value_prefix(d.drop_last(), k);
    } else {
        assert(d.take(k) =~= d);
    }
}

/// Parses an unsigned decimal number as `usize::from_str` does.
pub fn parse_usize_chars(t: &[char]) -> (r: Option<usize>)
    ensures
        match r {
            Some(n) => parse_usize(t@) == Some(n as nat),
            None => parse_usize(t@) is None,
        },
{
    let start: usize = if t.len() > 0 && t[0] == '+' {
        1
    } else {
        0
    };
    let ghost d = unsigned_digits(t@);
    assert(d =~= t@.skip(start as int));
    if start == t.len() {
        return None;
    }
    let mut v: usize = 0;
    let mut i: usize = start;
    while i < t.len()
        invariant
            start <= i <= t@.len(),
            d == t@.skip(start as int),
            d == unsigned_digits(t@),
            all_digits(d.take(i - start)),
            v == digits_value(d.take(i - start)),
        decreases t@.len() - i,
    {
        let c = t[i];
        let ghost k = i - start;
        assert(d[k] == t@[i as int]);
        if !char_is_ascii_digit(c) {
            assert(!all_digits(d));
            return None;
        }
        let dv = (c as u32 - '0' as u32) as usize;
        assert(dv == digit_value(c));
        proof {
            assert(d.take(k + 1).drop_last() =~= d.take(k));
            assert(d.take(k + 1).last() == c);
        }
        let m = v.checked_mul(10);
        if m.is_none() {
            proof {
                assert(digits_value(d.take(k + 1)) == v * 10 + dv);
                assert(all_digits(d.take(k + 1)));
                if all_digits(d) {
                    lemma_digits_value_prefix(d, k + 1);
                }
            }
            return None;
        }
        let m = m.unwrap();
        let a = m.checked_add(dv);
        if a.is_none() {
            proof {
                assert(digits_value(d.take(k + 1)) == v * 10 + dv);
                if all_digits(d) {
                    lemma_digits_value_prefix(d, k + 1);
                }
            }
            return None;
        }
        v = a.unwrap();
        i = i + 1;
        proof {
            assert forall|j: int| 0 <= j < i - start implies is_ascii_digit(
                #[trigger] d.take(i - start)[j],
            ) by {
                if j < k {
                    assert(d.take(i - start)[j] == d.take(k)[j]);
                }
            }
        }
    }
    assert(d.take(t@.len() - start) =~= d);
    Some(v)
}

/// No two adjacent dashes.
pub open spec fn has_double_dash(s: Seq<char>) -> bool {
    exists|i: int| 0 <= i < s.len() - 1 && s[i] == '-' && #[trigger] s[i + 1] == '-'
}

/// The structural pre-check: non-empty, contains a dash, does not start or
/// end with one, and has no empty segment.
pub open spec fn syntax_ok(s: Seq<char>) -> bool {
    &&& s.len() > 0
    &&& s[0] != '-'
    &&& s.last() != '-'
    &&& !has_double_dash(s)
    &&& exists|i: int| 0 <= i < s.len() && #[trigger] s[i] == '-'
}

fn check_syntax(v: &[char]) -> (r: bool)
    ensures
        r == syntax_ok(v@),
{
    let n = v.len();
    if n == 0 || v[0] == '-' || v[n - 1] == '-' {
        return false;
    }
    let mut seen_dash = false;
    let mut i: usize = 0;
    while i < n
        invariant
            n == v@.len(),
            n > 0,
            i <= n,
            seen_dash == exists|j: int| 0 <= j < i && #[trigger] v@[j] == '-',
            forall|j: int| 0 <= j < i && j < n - 1 ==> !(v@[j] == '-' && #[trigger] v@[j + 1] == '-'),
        decreases n - i,
    {
        if v[i] == '-' {
            if i + 1 < n && v[i + 1] == '-' {
                assert(v@[i + 1 as int] == '-');
                return false;
            }
            seen_dash = true;
        }
        i = i + 1;
    }
    if !seen_dash {
        return false;
    }
    proof {
        if has_double_dash(v@) {
            let j = choose|j: int| 0 <= j < v@.len() - 1 && v@[j] == '-' && #[trigger] v@[j + 1] == '-';
            assert(!(v@[j] == '-' && v@[j + 1] == '-'));
        }
    }
    true
}

/// Parsing an HRID from text: the structure is checked first, then the id
/// (last part), then the kind (second to last), then each namespace segment.
pub open spec fn spec_parse_hrid(s: Seq<char>) -> Result<SpecHrid, ErrorView> {
    if !syntax_ok(s) {
        Err(ErrorView::Syntax(s))
    } else {
        let parts = split(s, '-');
        if parts.len() < 2 {
            Err(ErrorView::Syntax(s))
        } else {
            let id_str = parts.last();
            match parse_usize(id_str) {
                None => Err(ErrorView::Id(s, id_str)),
                Some(n) => {
                    if n == 0 {
                        Err(ErrorView::Id(s, id_str))
                    } else {
                        let kind = parts[parts.len() - 2];
                        if !valid_kind(kind) {
                            Err(ErrorView::Kind(kind))
                        } else {
                            let ns = parts.take(parts.len() - 2);
                            if exists|i: int| 0 <= i < ns.len() && !valid_segment(#[trigger] ns[i]) {
                                Err(ErrorView::Namespace(s, segment_error_message()))
                            } else {
                                Ok(SpecHrid { namespace: ns, kind, id: n })
                            }
                        }
                    }
                },
            }
        }
    }
}

impl Hrid {
    /// Parses an HRID such as `USR-001` or `auth-api-SYS-005`.
    #[verifier::loop_isolation(false)]
    pub fn parse(s: &str) -> (r: Result<Hrid, Error>)
        ensures
            match r {
                Ok(h) => spec_parse_hrid(s@) == Ok::<SpecHrid, ErrorView>(h@),
                Err(e) => spec_parse_hrid(s@) == Err::<SpecHrid, ErrorView>(e@),
            },
    {
        let v = chars_of(s);
        if !check_syntax(v.as_slice()) {
            return Err(Error::Syntax(string_of(s)));
        }
        let parts = split_on(v.as_slice(), '-');
        let ghost sp = split(s@, '-');
        let n = parts.len();
        if n < 2 {
            return Err(Error::Syntax(string_of(s)));
        }
        assert(parts@[n - 1]@ == sp.last());
        let id_opt = parse_usize_chars(parts[n - 1].as_slice());
        let id = match id_opt {
            None => {
                return Err(Error::Id(string_of(s), string_from_chars(parts[n - 1].as_slice())));
            },
            Some(id) => id,
        };
        if id == 0 {
            return Err(Error::Id(string_of(s), string_from_chars(parts[n - 1].as_slice())));
        }
        assert(parts@[n - 2]@ == sp[sp.len() - 2]);
        let kind = match KindString::new(string_from_chars(parts[n - 2].as_slice())) {
            Err(e) => {
                return Err(Error::Kind(e));
            },
            Ok(k) => k,
        };
        let ghost ns = sp.take(sp.len() - 2);
        let mut namespace: Vec<NamespaceSegment> = Vec::new();
        let mut i: usize = 0;
        while i < n - 2
            invariant
                n == parts@.len(),
                n == sp.len(),
                n >= 2,
                ns == sp.take(sp.len() - 2),
                forall|k: int| 0 <= k < n ==> #[trigger] parts@[k]@ == sp[k],
                i <= n - 2,
                namespace@.len() == i,
                forall|k: int| 0 <= k < i ==> #[trigger] namespace@[k]@ == ns[k],
                forall|k: int| 0 <= k < i ==> valid_segment(#[trigger] ns[k]),
            decreases n - 2 - i,
        {
            match NamespaceSegment::new(string_from_chars(parts[i].as_slice())) {
                Err(msg) => {
                    assert(!valid_segment(ns[i as int]));
                    return Err(Error::Namespace(string_of(s), msg));
                },
                Ok(seg) => {
                    namespace.push(seg);
                },
            }
            i = i + 1;
        }
        let r = Hrid { namespace, kind, id };
        assert(r@.namespace =~= ns);
        Ok(r)
    }
}


// ---------------------------------------------------------------------------
// Round trip between rendering and parsing
// ---------------------------------------------------------------------------

proof fn lemma_digit_char(d: nat)
    requires
        d < 10,
    ensures
        is_ascii_digit(digit_char(d)),
        digit_value(digit_char(d)) == d,
{
}

proof fn lemma_decimal(n: nat)
    ensures
        decimal(n).len() > 0,
        all_digits(decimal(n)),
        digits_value(decimal(n)) == n,
    decreases n,
{
    if n < 10 {
        lemma_digit_char(n);
        assert(decimal(n).drop_last() =~= Seq::<char>::empty());
        assert(decimal(n).last() == digit_char(n));
        assert(digits_value(Seq::<char>::empty()) == 0);
    } else {
        lemma_decimal(n / 10);
        lemma_digit_char(n % 10);
        let d = decimal(n);
        assert(d.drop_last() =~= decimal(n / 10));
        assert(d.last() == digit_char(n % 10));
        assert((n / 10) * 10 + n % 10 == n) by (nonlinear_arith);
        assert(all_digits(d)) by {
            assert forall|i: int| 0 <= i < d.len() implies is_ascii_digit(#[trigger] d[i]) by {
                if i < d.len() - 1 {
                    assert(d[i] == decimal(n / 10)[i]);
                }
            }
        }
    }
}

proof fn lemma_zeros_value(k: nat)
    ensures
        digits_value(Seq::new(k, |_i: int| '0')) == 0,
        all_digits(Seq::new(k, |_i: int| '0')),
    decreases k,
{
    if k > 0 {
        lemma_zeros_value((k - 1) as nat);
        assert(Seq::new(k, |_i: int| '0').drop_last() =~= Seq::new((k - 1) as nat, |_i: int| '0'));
    }
}

proof fn lemma_leading_zeros(z: Seq<char>, s: Seq<char>)
    requires
        digits_value(z) == 0,
    ensures
        digits_value(z + s) == digits_value(s),
    decreases s.len(),
{
    if s.len() == 0 {
        assert(z + s =~= z);
    } else {
        assert((z + s).drop_last() =~= z + s.drop_last());
        lemma_leading_zeros(z, s.drop_last());
    }
}

pub proof fn lemma_zero_padded(n: nat, width: nat)
    requires
        n <= usize::MAX,
    ensures
        zero_padded(n, width).len() > 0,
        zero_padded(n, width)[0] != '+',
        all_digits(zero_padded(n, width)),
        parse_usize(zero_padded(n, width)) == Some(n),
{
    lemma_decimal(n);
    let d = decimal(n);
    if d.len() < width {
        let z = Seq::new((width - d.len()) as nat, |_i: int| '0');
        lemma_zeros_value((width - d.len()) as nat);
        lemma_leading_zeros(z, d);
        let p = z + d;
        assert(all_digits(p)) by {
            assert forall|i: int| 0 <= i < p.len() implies is_ascii_digit(#[trigger] p[i]) by {
                if i >= z.len() {
                    assert(p[i] == d[i - z.len()]);
                }
            }
        }
    }
    let p = zero_padded(n, width);
    assert(is_ascii_digit(p[0]));
    assert(unsigned_digits(p) == p);
}

/// No character of the piece is a dash.
pub open spec fn dash_free(s: Seq<char>) -> bool {
    forall|i: int| 0 <= i < s.len() ==> #[trigger] s[i] != '-'
}

proof fn lemma_join_first(parts: Seq<Seq<char>>)
    requires
        parts.len() >= 2,
    ensures
        join(parts, "-"@) == parts[0] + "-"@ + join(parts.drop_first(), "-"@),
    decreases parts.len(),
{
    let sep = "-"@;
    if parts.len() == 2 {
        assert(parts.drop_last() =~= seq![parts[0]]);
        assert(parts.drop_first() =~= seq![parts[1]]);
        assert(join(parts.drop_last(), sep) == parts[0]);
        assert(join(parts.drop_first(), sep) == parts[1]);
    } else {
        let dl = parts.drop_last();
        let df = parts.drop_first();
        lemma_join_first(dl);
        assert(dl.drop_first() =~= df.drop_last());
        assert(df.last() == parts.last());
        assert(dl[0] == parts[0]);
        assert(join(df, sep) == join(df.drop_last(), sep) + sep + df.last());
        assert(join(parts, sep) == join(dl, sep) + sep + parts.last());
        assert(parts[0] + sep + join(dl.drop_first(), sep) + sep + parts.last() =~= parts[0] + sep
            + (join(df.drop_last(), sep) + sep + df.last()));
    }
}

proof fn lemma_split_join(parts: Seq<Seq<char>>)
    requires
        parts.len() >= 1,
        forall|i: int| 0 <= i < parts.len() ==> dash_free(#[trigger] parts[i]),
        forall|i: int| 0 <= i < parts.len() ==> (#[trigger] parts[i]).len() > 0,
    ensures
        split(join(parts, "-"@), '-') == parts,
        join(parts, "-"@).len() > 0,
        join(parts, "-"@)[0] == parts[0][0],
        join(parts, "-"@).last() == parts.last().last(),
        !has_double_dash(join(parts, "-"@)),
        parts.len() >= 2 ==> join(parts, "-"@)[parts[0].len() as int] == '-',
    decreases parts.len(),
{
    reveal_strlit("-");
    let p0 = parts[0];
    if parts.len() == 1 {
        lemma_find_char(p0, '-');
        assert(dash_free(p0));
        if has_double_dash(p0) {
            let j = choose|j: int| 0 <= j < p0.len() - 1 && p0[j] == '-' && #[trigger] p0[j + 1] == '-';
            assert(p0[j] != '-');
        }
    } else {
        let rest = parts.drop_first();
        assert forall|i: int| 0 <= i < rest.len() implies dash_free(#[trigger] rest[i]) by {
            assert(rest[i] == parts[i + 1]);
        }
        assert forall|i: int| 0 <= i < rest.len() implies (#[trigger] rest[i]).len() > 0 by {
            assert(rest[i] == parts[i + 1]);
        }
        lemma_split_join(rest);
        lemma_join_first(parts);
        let b = join(rest, "-"@);
        let s = p0 + "-"@ + b;
        assert(dash_free(p0));
        assert(s[p0.len() as int] == '-');
        assert forall|j: int| 0 <= j < p0.len() implies s[j] != '-' by {
            assert(s[j] == p0[j]);
        }
        lemma_find_char_at(s, '-', p0.len() as int);
        assert(s.take(p0.len() as int) =~= p0);
        assert(s.skip(p0.len() as int + 1) =~= b);
        assert(split(s, '-') =~= seq![p0] + rest);
        assert(seq![p0] + rest =~= parts);
        assert(s[0] == p0[0]);
        assert(s.last() == b.last());
        assert(rest.last() == parts.last());
        if has_double_dash(s) {
            let j = choose|j: int| 0 <= j < s.len() - 1 && s[j] == '-' && #[trigger] s[j + 1] == '-';
            if j < p0.len() {
                assert(s[j] == p0[j]);
            } else if j == p0.len() {
                assert(s[j + 1] == b[0]);
                assert(b[0] == rest[0][0]);
                assert(dash_free(rest[0]));
            } else {
                let k = j - p0.len() - 1;
                assert(s[j] == b[k]);
                assert(s[j + 1] == b[k + 1]);
                assert(has_double_dash(b));
            }
        }
    }
}

/// The pieces an HRID is rendered from, in order.
pub open spec fn display_parts(h: SpecHrid, digits: nat) -> Seq<Seq<char>> {
    h.namespace.push(h.kind).push(zero_padded(h.id, digits))
}

pub proof fn lemma_display_is_join(h: SpecHrid, digits: nat)
    ensures
        spec_display(h, digits) == join(display_parts(h, digits), "-"@),
{
    let parts = display_parts(h, digits);
    let sep = "-"@;
    let nk = h.namespace.push(h.kind);
    assert(parts.drop_last() =~= nk);
    assert(nk.drop_last() =~= h.namespace);
    assert(join(parts, sep) == join(nk, sep) + sep + parts.last());
    if h.namespace.len() == 0 {
        assert(nk =~= seq![h.kind]);
        assert(join(nk, sep) == h.kind);
    } else {
        assert(join(nk, sep) == join(h.namespace, sep) + sep + h.kind);
    }
}

/// Rendering a well-formed HRID at any width and parsing the text back
/// yields the same HRID.
pub proof fn lemma_display_parse_roundtrip(h: SpecHrid, digits: nat)
    requires
        valid_hrid(h),
    ensures
        spec_parse_hrid(spec_display(h, digits)) == Ok::<SpecHrid, ErrorView>(h),
{
    let parts = display_parts(h, digits);
    let pad = zero_padded(h.id, digits);
    lemma_zero_padded(h.id, digits);
    lemma_display_is_join(h, digits);
    let n = parts.len();
    assert(parts[n - 1] == pad);
    assert(parts[n - 2] == h.kind);
    assert forall|i: int| 0 <= i < n implies dash_free(#[trigger] parts[i]) && parts[i].len() > 0 by {
        if i < n - 2 {
            assert(parts[i] == h.namespace[i]);
            assert(valid_segment(h.namespace[i]));
            assert forall|j: int| 0 <= j < parts[i].len() implies #[trigger] parts[i][j] != '-' by {
                assert(is_ascii_alpha(h.namespace[i][j]));
            }
        } else if i == n - 2 {
            assert forall|j: int| 0 <= j < parts[i].len() implies #[trigger] parts[i][j] != '-' by {
                assert(is_ascii_upper(h.kind[j]));
            }
        } else {
            assert forall|j: int| 0 <= j < parts[i].len() implies #[trigger] parts[i][j] != '-' by {
                assert(is_ascii_digit(pad[j]));
            }
        }
    }
    lemma_split_join(parts);
    let s = spec_display(h, digits);
    assert(s[parts[0].len() as int] == '-');
    assert(syntax_ok(s));
    assert(parts.take(n - 2) =~= h.namespace);
}

impl core::str::FromStr for Hrid {
    type Err = Error;

    fn from_str(s: &str) -> (r: Result<Self, Self::Err>)
        ensures
            match r {
                Ok(h) => spec_parse_hrid(s@) == Ok::<SpecHrid, ErrorView>(h@),
                Err(e) => spec_parse_hrid(s@) == Err::<SpecHrid, ErrorView>(e@),
            },
    {
        Hrid::parse(s)
    }
}

impl<'a> core::convert::TryFrom<&'a str> for Hrid {
    type Error = Error;

    fn try_from(value: &'a str) -> (r: Result<Self, Self::Error>)
        ensures
            match r {
                Ok(h) => spec_parse_hrid(value@) == Ok::<SpecHrid, ErrorView>(h@),
                Err(e) => spec_parse_hrid(value@) == Err::<SpecHrid, ErrorView>(e@),
            },
    {
        Hrid::parse(value)
    }
}

/// `try_from` promises nothing beyond [`Hrid::parse`], whose contract it
/// forwards; no separate specification is claimed for it.
impl<'a> vstd::std_specs::convert::TryFromSpecImpl<&'a str> for Hrid {
    open spec fn obeys_try_from_spec() -> bool {
        false
    }

    open spec fn try_from_spec(v: &'a str) -> Result<Self, Self::Error> {
        arbitrary()
    }
}

/// Errors from parsing or building an HRID.
#[derive(Debug, PartialEq, Eq)]
pub enum Error {
    /// Malformed structure.
    Syntax(String),
    /// The id part is not a positive integer: the HRID text and the id text.
    Id(String, String),
    /// The id is zero.
    ZeroId,
    /// The kind is not upper-case alphabetic.
    Kind(InvalidKindError),
    /// A namespace segment is invalid: the HRID text and the reason.
    Namespace(String, String),
}

/// The mathematical content of an [`Error`].
pub enum ErrorView {
    Syntax(Seq<char>),
    Id(Seq<char>, Seq<char>),
    ZeroId,
    Kind(Seq<char>),
    Namespace(Seq<char>, Seq<char>),
}

impl View for Error {
    type V = ErrorView;

    open spec fn view(&self) -> ErrorView {
        match self {
            Error::Syntax(s) => ErrorView::Syntax(s@),
            Error::Id(s, t) => ErrorView::Id(s@, t@),
            Error::ZeroId => ErrorView::ZeroId,
            Error::Kind(e) => ErrorView::Kind(e@),
            Error::Namespace(s, t) => ErrorView::Namespace(s@, t@),
        }
    }
}

/// The display text of an error.
pub open spec fn error_message(e: ErrorView) -> Seq<char> {
    match e {
        ErrorView::Syntax(s) => "Invalid HRID format: "@ + s,
        ErrorView::Id(s, t) => "Invalid ID in HRID '"@ + s
            + "': expected a non-zero integer, got "@ + t,
        ErrorView::ZeroId => "Invalid ID: cannot be zero"@,
        ErrorView::Kind(k) => invalid_kind_message(k),
        ErrorView::Namespace(s, t) => "Invalid namespace segment in HRID '"@ + s + "': "@ + t,
    }
}

impl Error {
    /// The human-readable message of the error.
    pub fn to_string(&self) -> (r: String)
        ensures
            r@ == error_message(self@),
    {
        match self {
            Error::Syntax(s) => {
                let mut r = string_of("Invalid HRID format: ");
                push_str(&mut r, s.as_str());
                r
            },
            Error::Id(s, t) => {
                let mut r = string_of("Invalid ID in HRID '");
                push_str(&mut r, s.as_str());
                push_str(&mut r, "': expected a non-zero integer, got ");
                push_str(&mut r, t.as_str());
                r
            },
            Error::ZeroId => string_of("Invalid ID: cannot be zero"),
            Error::Kind(e) => e.to_string(),
            Error::Namespace(s, t) => {
                let mut r = string_of("Invalid namespace segment in HRID '");
                push_str(&mut r, s.as_str());
                push_str(&mut r, "': ");
                push_str(&mut r, t.as_str());
                r
            },
        }
    }
}


/// An HRID as typed on a command line: the kind segment (second to last,
/// counting `-`-separated pieces) upper-cased, the rest as written.
pub open spec fn cli_normalized(s: Seq<char>) -> Seq<char> {
    let parts = split(s, '-');
    let k = parts.len() - 2;
    join(parts.update(k, crate::config::uppercase(parts[k])), "-"@)
}

/// Parses an HRID given on a command line, accepting a lower-case kind
/// (`auth-sys-001` is `auth-SYS-001`); namespaces are kept as written.
pub fn parse_cli_hrid(s: &str) -> (r: Result<Hrid, String>)
    ensures
        split(s@, '-').len() < 2 ==> (r matches Err(e) && e@ == "Invalid HRID format"@),
        split(s@, '-').len() >= 2 ==> match r {
            Ok(h) => spec_parse_hrid(cli_normalized(s@)) == Ok::<SpecHrid, ErrorView>(h@),
            Err(e) => exists|ev: ErrorView| spec_parse_hrid(cli_normalized(s@)) == Err::<SpecHrid, ErrorView>(ev)
                && e@ == #[trigger] error_message(ev),
        },
{
    let v = chars_of(s);
    let parts = split_on(v.as_slice(), '-');
    let ghost sp = split(s@, '-');
    if parts.len() < 2 {
        return Err(string_of("Invalid HRID format"));
    }
    let k = parts.len() - 2;
    let mut pieces: Vec<Vec<char>> = Vec::new();
    let mut i: usize = 0;
    while i < parts.len()
        invariant
            parts@.len() == sp.len(),
            forall|j: int| 0 <= j < parts@.len() ==> #[trigger] parts@[j]@ == sp[j],
            k == parts@.len() - 2,
            i <= parts@.len(),
            pieces@.len() == i,
            forall|j: int| 0 <= j < i ==> #[trigger] pieces@[j]@ == sp.update(k as int, crate::config::uppercase(sp[k as int]))[j],
        decreases parts@.len() - i,
    {
        if i == k {
            let up = crate::config::to_uppercase(string_from_chars(parts[i].as_slice()).as_str());
            pieces.push(chars_of(up.as_str()));
        } else {
            pieces.push(parts[i].clone());
        }
        i = i + 1;
    }
    let sep = chars_of("-");
    let joined = crate::text::join_range(&pieces, 0, pieces.len(), sep.as_slice());
    proof {
        let ws = pieces@.subrange(0, pieces@.len() as int).map_values(|l: Vec<char>| l@);
        assert(ws =~= sp.update(k as int, crate::config::uppercase(sp[k as int])));
    }
    let text = string_from_chars(joined.as_slice());
    match Hrid::parse(text.as_str()) {
        Ok(h) => Ok(h),
        Err(e) => Err(e.to_string()),
    }
}

} // verus!
