//! Normalisation of domain names.
//!
//! A name is trimmed, loses its trailing dots, goes through IDNA
//! (`idna::domain_to_ascii`), is lowered, and is kept only when it is a
//! hostname of at least two labels that is not an IP address.

use vstd::prelude::*;
use crate::text::{
    char_views, chars_of, contains_char, lower, split, split_chars, split_from, string_from_chars, to_lower,
    trim, trim_chars, trim_end_char, trim_end_matches,
};

verus! {

/// What `idna::domain_to_ascii` returns for `input`; `None` where it fails.
pub uninterp spec fn idna_to_ascii(input: Seq<char>) -> Option<Seq<char>>;

/// Whether `text` parses as an IP address (`IpAddr::from_str`).
pub uninterp spec fn is_ip_literal(text: Seq<char>) -> bool;

/// A label that `idna` passes through untouched: empty, or a lower-case
/// ASCII letter followed by lower-case letters, digits and hyphens, not
/// ending with a hyphen and without hyphens in both its third and fourth
/// places.
pub open spec fn idna_passthrough_label(l: Seq<char>) -> bool {
    l.len() == 0 || {
        &&& 'a' <= l[0] <= 'z'
        &&& forall|i: int|
            1 <= i < l.len() ==> ('a' <= #[trigger] l[i] <= 'z' || '0' <= l[i] <= '9' || l[i]
                == '-')
        &&& l.last() != '-'
        &&& !(l.len() >= 4 && l[2] == '-' && l[3] == '-')
    }
}

/// Every dot-separated label of `d` passes through `idna` untouched.
pub open spec fn idna_passthrough(d: Seq<char>) -> bool {
    forall|i: int| 0 <= i < split(d, '.').len() ==> idna_passthrough_label(#[trigger] split(d, '.')[i])
}

/// Trusted: `idna::domain_to_ascii` (UTS 46 processing, non-transitional,
/// no ASCII deny list). Its result is named `idna_to_ascii`; an error is
/// reported as `None`. A name whose every label passes the crate's ASCII
/// fast path (`is_passthrough_ascii_label` in `uts46.rs`) comes back
/// unchanged; nothing more is stated of other inputs.
#[verifier::external_body]
fn domain_to_ascii(input: &str) -> (r: Option<String>)
    ensures
        match r {
            Some(a) => idna_to_ascii(input@) == Some(a@),
            None => idna_to_ascii(input@) is None,
        },
        idna_passthrough(input@) ==> r is Some && r.unwrap()@ == input@,
{
    idna::domain_to_ascii(input).ok()
}

/// Trusted: `<IpAddr as FromStr>::from_str` succeeds on `text`; the answer
/// is named `is_ip_literal`.
#[verifier::external_body]
fn parses_as_ip(text: &str) -> (b: bool)
    ensures
        b == is_ip_literal(text@),
{
    text.parse::<core::net::IpAddr>().is_ok()
}

/// Whether `text`, given as characters, parses as an IP address.
pub fn chars_parse_as_ip(text: &[char]) -> (b: bool)
    ensures
        b == is_ip_literal(text@),
{
    let s = string_from_chars(text);
    parses_as_ip(s.as_str())
}

/// An ASCII letter, digit or hyphen.
pub open spec fn is_label_char(c: char) -> bool {
    ('a' <= c <= 'z') || ('A' <= c <= 'Z') || ('0' <= c <= '9') || c == '-'
}

/// A DNS label: 1 to 63 letters, digits and hyphens, no hyphen at either end.
pub open spec fn valid_label(l: Seq<char>) -> bool {
    &&& 0 < l.len() <= 63
    &&& l[0] != '-'
    &&& l.last() != '-'
    &&& forall|i: int| 0 <= i < l.len() ==> is_label_char(#[trigger] l[i])
}

/// At most 253 characters, at least two labels, every label valid.
pub open spec fn valid_hostname(a: Seq<char>) -> bool {
    &&& a.len() <= 253
    &&& split(a, '.').len() >= 2
    &&& forall|i: int| 0 <= i < split(a, '.').len() ==> valid_label(#[trigger] split(a, '.')[i])
}

/// What a name becomes after IDNA: lowered, and kept only when it is a valid
/// hostname and no IP address.
pub open spec fn ascii_domain(a: Seq<char>) -> Option<Seq<char>> {
    let l = lower(a);
    if valid_hostname(l) && !is_ip_literal(l) {
        Some(l)
    } else {
        None
    }
}

/// The input as IDNA sees it: trimmed, trailing dots removed.
pub open spec fn idna_input(input: Seq<char>) -> Seq<char> {
    trim_end_char(trim(input), '.')
}

/// Characters that rule a name out before IDNA.
pub open spec fn refused_before_idna(t: Seq<char>) -> bool {
    ||| t.len() == 0
    ||| t.contains('*')
    ||| t.contains('/')
    ||| t.contains('\\')
    ||| t.contains(':')
}

/// The normalised form of `input`, or `None` where it is no usable domain.
pub open spec fn normalize_spec(input: Seq<char>) -> Option<Seq<char>> {
    let t = idna_input(input);
    if refused_before_idna(t) {
        None
    } else {
        match idna_to_ascii(t) {
            Some(a) => ascii_domain(a),
            None => None,
        }
    }
}

/// A normalised domain: a lower-case valid hostname that is no IP address.
pub open spec fn is_normalized(d: Seq<char>) -> bool {
    &&& valid_hostname(d)
    &&& !is_ip_literal(d)
    &&& lower(d) == d
}

pub open spec fn opt_view(o: Option<String>) -> Option<Seq<char>> {
    match o {
        Some(s) => Some(s@),
        None => None,
    }
}

pub proof fn lemma_lower_idempotent(s: Seq<char>)
    ensures
        lower(lower(s)) == lower(s),
{
    assert(lower(lower(s)) =~= lower(s));
}

/// Every result of `normalize_spec` is normalised.
pub proof fn lemma_normalize_spec_normalized(input: Seq<char>)
    ensures
        normalize_spec(input) matches Some(d) ==> is_normalized(d),
{
    if let Some(a) = idna_to_ascii(idna_input(input)) {
        lemma_lower_idempotent(a);
    }
}

fn is_label_char_exec(c: char) -> (b: bool)
    ensures
        b == is_label_char(c),
{
    ('a' <= c && c <= 'z') || ('A' <= c && c <= 'Z') || ('0' <= c && c <= '9') || c == '-'
}

fn check_label(l: &[char]) -> (b: bool)
    ensures
        b == valid_label(l@),
{
    if l.len() == 0 || l.len() > 63 || l[0] == '-' || l[l.len() - 1] == '-' {
        return false;
    }
    let mut i: usize = 0;
    while i < l.len()
        invariant
            i <= l@.len(),
            forall|k: int| 0 <= k < i ==> is_label_char(#[trigger] l@[k]),
        decreases l@.len() - i,
    {
        if !is_label_char_exec(l[i]) {
            return false;
        }
        i += 1;
    }
    true
}

fn check_hostname(a: &[char]) -> (b: bool)
    ensures
        b == valid_hostname(a@),
{
    if a.len() > 253 {
        return false;
    }
    let labels = split_chars(a, '.');
    if labels.len() < 2 {
        return false;
    }
    let mut i: usize = 0;
    while i < labels.len()
        invariant
            char_views(labels@) == split(a@, '.'),
            i <= labels@.len(),
            forall|k: int| 0 <= k < i ==> valid_label(#[trigger] split(a@, '.')[k]),
        decreases labels@.len() - i,
    {
        if !check_label(labels[i].as_slice()) {
            assert(split(a@, '.')[i as int] == labels@[i as int]@);
            return false;
        }
        assert(split(a@, '.')[i as int] == labels@[i as int]@);
        i += 1;
    }
    true
}

/// The step after IDNA: lowers `ascii` and keeps it when it is a hostname
/// of at least two valid labels that is no IP address.
pub fn normalize_ascii(ascii: &str) -> (r: Option<String>)
    ensures
        opt_view(r) == ascii_domain(ascii@),
{
    let chars = chars_of(ascii);
    let l = to_lower(chars.as_slice());
    if !check_hostname(l.as_slice()) || chars_parse_as_ip(l.as_slice()) {
        return None;
    }
    Some(string_from_chars(l.as_slice()))
}

/// `normalize_domain` on a name given as characters.
pub fn normalize_chars(input: &[char]) -> (r: Option<String>)
    ensures
        opt_view(r) == normalize_spec(input@),
        r matches Some(d) ==> is_normalized(d@),
        is_normalized(input@) && idna_passthrough(input@) ==> opt_view(r) == Some(input@),
{
    proof {
        lemma_normalize_spec_normalized(input@);
        if is_normalized(input@) {
            law_normalized_name_is_its_own_idna_input(input@);
        }
    }
    let trimmed = trim_chars(input);
    let t = trim_end_matches(trimmed.as_slice(), '.');
    if t.len() == 0 || contains_char(t.as_slice(), '*') || contains_char(t.as_slice(), '/')
        || contains_char(t.as_slice(), '\\') || contains_char(t.as_slice(), ':') {
        return None;
    }
    let ts = string_from_chars(t.as_slice());
    match domain_to_ascii(ts.as_str()) {
        Some(a) => normalize_ascii(a.as_str()),
        None => None,
    }
}

/// Normalises a domain name: trimmed, trailing dots dropped, IDNA applied,
/// lowered; `None` unless the result is a hostname of at least two valid
/// labels and no IP address.
pub fn normalize_domain(input: &str) -> (r: Option<String>)
    ensures
        opt_view(r) == normalize_spec(input@),
        r matches Some(d) ==> is_normalized(d@),
        is_normalized(input@) && idna_passthrough(input@) ==> opt_view(r) == Some(input@),
{
    let chars = chars_of(input);
    normalize_chars(chars.as_slice())
}

} // verus!

verus! {

/// Every character of `s` from `i` on is the separator `c` or a label
/// character, when every piece of the split is made of label characters.
proof fn lemma_split_chars(s: Seq<char>, c: char, i: int)
    requires
        0 <= i <= s.len(),
        forall|j: int|
            0 <= j < split_from(s, c, i).len() ==> forall|m: int|
                0 <= m < (#[trigger] split_from(s, c, i)[j]).len() ==> is_label_char(
                    split_from(s, c, i)[j][m],
                ),
    ensures
        forall|k: int| i <= k < s.len() ==> #[trigger] s[k] == c || is_label_char(s[k]),
    decreases s.len() - i,
{
    crate::text::lemma_find_char(s, c, i);
    let k = crate::text::find_char(s, c, i);
    let ps = split_from(s, c, i);
    let first = ps[0];
    assert(first.len() == k - i);
    assert forall|q: int| i <= q < k implies is_label_char(#[trigger] s[q]) by {
        assert(first[q - i] == s[q]);
        assert(is_label_char(ps[0][q - i]));
    }
    if k < s.len() {
        let rest = split_from(s, c, k + 1);
        assert(ps == seq![s.subrange(i, k)] + rest);
        assert forall|j: int| 0 <= j < rest.len() implies forall|m: int|
            0 <= m < (#[trigger] rest[j]).len() ==> is_label_char(rest[j][m]) by {
            assert(rest[j] == ps[j + 1]);
        }
        lemma_split_chars(s, c, k + 1);
    }
}

/// A text ending with the separator splits into pieces the last of which
/// is empty.
proof fn lemma_split_last_empty(s: Seq<char>, c: char, i: int)
    requires
        0 <= i <= s.len(),
        s.len() > i,
        s.last() == c,
    ensures
        split_from(s, c, i).last().len() == 0,
    decreases s.len() - i,
{
    crate::text::lemma_find_char(s, c, i);
    let k = crate::text::find_char(s, c, i);
    if k >= s.len() {
        assert(s[s.len() - 1] != c);
    } else {
        let rest = split_from(s, c, k + 1);
        assert(split_from(s, c, i) == seq![s.subrange(i, k)] + rest);
        if k + 1 == s.len() {
            assert(rest == seq![s.subrange(s.len() as int, s.len() as int)]);
        } else {
            lemma_split_last_empty(s, c, k + 1);
        }
    }
}

/// A normalised name is its own input to IDNA: trimming and dropping
/// trailing dots leave it as it is, and none of the characters refused
/// before IDNA occurs in it.
pub proof fn law_normalized_name_is_its_own_idna_input(d: Seq<char>)
    requires
        is_normalized(d),
    ensures
        idna_input(d) == d,
        !refused_before_idna(d),
{
    let ps = split(d, '.');
    assert forall|j: int| 0 <= j < ps.len() implies forall|m: int|
        0 <= m < (#[trigger] ps[j]).len() ==> is_label_char(ps[j][m]) by {
        assert(valid_label(ps[j]));
    }
    lemma_split_chars(d, '.', 0);
    if d.len() == 0 {
        assert(ps == seq![d.subrange(0, 0)]);
    }
    assert(d.len() > 0);
    assert(valid_label(ps[ps.len() - 1]));
    if d.last() == '.' {
        lemma_split_last_empty(d, '.', 0);
    }
    assert(d[d.len() - 1] == '.' || is_label_char(d[d.len() - 1]));
    assert(d[0] == '.' || is_label_char(d[0]));
    if d[0] == '.' {
        assert(crate::text::find_char(d, '.', 0) == 0);
        assert(ps[0] == d.subrange(0, 0));
        assert(valid_label(ps[0]));
    }
    crate::text::lemma_trim_unpadded(d);
    assert(trim_end_char(d, '.') == d);
    assert forall|k: int| 0 <= k < d.len() implies #[trigger] d[k] != '*' && d[k] != '/' && d[k]
        != '\\' && d[k] != ':' by {
        assert(d[k] == '.' || is_label_char(d[k]));
    }
}

/// A normalised name that IDNA returns unchanged normalises to itself.
pub proof fn law_normalize_fixed_point(d: Seq<char>)
    requires
        is_normalized(d),
        idna_to_ascii(d) == Some(d),
    ensures
        normalize_spec(d) == Some(d),
{
    law_normalized_name_is_its_own_idna_input(d);
}

} // verus!
