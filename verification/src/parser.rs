//! Parsing of blocklist text.
//!
//! A source is read line by line. Each line is trimmed (the first one also
//! loses leading byte-order marks); blank lines and whole-line comments are
//! counted and skipped; every other line is matched, in this order, as an
//! Unbound `local-zone`/`local-data` row, an RPZ `CNAME .` row, a hosts row,
//! or an exact-domain Adblock/AdGuard rule (`@@` marking an allow rule).

use vstd::prelude::*;
use vstd::string::StrSliceExecFns;
use crate::normalize::{
    chars_parse_as_ip, is_ip_literal, is_normalized, normalize_chars, normalize_spec, opt_view,
};
use crate::strset::{views, StringSet};
use crate::text::{
    char_views, chars_of, contains_char, contains_seq, contains_str, copy_range, eq_chars, eq_str, find_char,
    find_char_from, lemma_find_char, lemma_lines_from_len, lines, lines_from, lower,
    starts_with, starts_with_str, strip_cr, to_lower, trim, trim_chars, trim_end_char,
    trim_end_matches, trim_start, trim_start_char, trim_start_chars, trim_start_matches, words,
    words_of,
};

verus! {

broadcast use vstd::seq_lib::group_seq_properties;

// ---------------------------------------------------------------------------
// Line-level specification
// ---------------------------------------------------------------------------

/// A whole-line comment: `#`, `!`, `;` or `//` at the start.
pub open spec fn is_comment_spec(l: Seq<char>) -> bool {
    ||| l.len() > 0 && (l[0] == '#' || l[0] == '!' || l[0] == ';')
    ||| l.len() > 1 && l[0] == '/' && l[1] == '/'
}

/// A token that opens an inline comment: `#`, `;` or `//` at its start.
pub open spec fn is_inline_comment_token_spec(t: Seq<char>) -> bool {
    ||| t.len() > 0 && (t[0] == '#' || t[0] == ';')
    ||| t.len() > 1 && t[0] == '/' && t[1] == '/'
}

/// Index of the first inline-comment token at or after `i`.
pub open spec fn comment_cut(ws: Seq<Seq<char>>, i: int) -> int
    decreases ws.len() - i,
{
    if 0 <= i < ws.len() && !is_inline_comment_token_spec(ws[i]) {
        comment_cut(ws, i + 1)
    } else {
        i
    }
}

/// The words of a line before its inline comment.
pub open spec fn tokens_spec(l: Seq<char>) -> Seq<Seq<char>> {
    words(l).take(comment_cut(words(l), 0))
}

/// Equality up to ASCII case (`eq_ignore_ascii_case`).
pub open spec fn eq_ignore_case(a: Seq<char>, b: Seq<char>) -> bool {
    lower(a) == lower(b)
}

/// `IN`, `CH` or `HS`, in any ASCII case.
pub open spec fn is_dns_class_spec(t: Seq<char>) -> bool {
    let u = lower(t);
    u == "in"@ || u == "ch"@ || u == "hs"@
}

/// One of the DNS record types the parser knows, in any ASCII case.
pub open spec fn is_dns_record_type_spec(t: Seq<char>) -> bool {
    let u = lower(t);
    ||| u == "a"@
    ||| u == "aaaa"@
    ||| u == "caa"@
    ||| u == "cname"@
    ||| u == "dnskey"@
    ||| u == "ds"@
    ||| u == "https"@
    ||| u == "mx"@
    ||| u == "ns"@
    ||| u == "ptr"@
    ||| u == "soa"@
    ||| u == "srv"@
    ||| u == "svcb"@
    ||| u == "txt"@
}

pub open spec fn is_dns_word(t: Seq<char>) -> bool {
    is_dns_class_spec(t) || is_dns_record_type_spec(t)
}

/// Token 1 to 4 names a DNS class or record type.
pub open spec fn looks_like_dns_record_line_spec(toks: Seq<Seq<char>>) -> bool {
    exists|k: int| 1 <= k < toks.len() && k <= 4 && is_dns_word(#[trigger] toks[k])
}

/// The first configuration value of an Unbound row: the text between the
/// first pair of double quotes (trimmed), or else the first word.
pub open spec fn first_config_value(input: Seq<char>) -> Option<Seq<char>> {
    let t = trim(input);
    if t.len() > 0 && t[0] == '"' {
        let rest = t.drop_first();
        let k = find_char(rest, '"', 0);
        if k < rest.len() {
            Some(trim(rest.take(k)))
        } else {
            None
        }
    } else if words(t).len() > 0 {
        Some(words(t)[0])
    } else {
        None
    }
}

/// An Unbound `local-zone:` or `local-data:` row names this domain.
pub open spec fn unbound_spec(l: Seq<char>) -> Option<Seq<char>> {
    let t = trim_start(l);
    if starts_with(t, "local-zone:"@) {
        match first_config_value(t.skip("local-zone:"@.len() as int)) {
            Some(v) => normalize_spec(v),
            None => None,
        }
    } else if starts_with(t, "local-data:"@) {
        match first_config_value(t.skip("local-data:"@.len() as int)) {
            Some(v) => if words(v).len() > 0 {
                normalize_spec(words(v)[0])
            } else {
                None
            },
            None => None,
        }
    } else {
        None
    }
}

pub open spec fn looks_like_unbound(l: Seq<char>) -> bool {
    let t = trim_start(l);
    t == "server:"@ || starts_with(t, "local-zone:"@) || starts_with(t, "local-data:"@)
}

/// Index of the first token at or after `k` equal to `CNAME` up to case.
pub open spec fn find_cname(toks: Seq<Seq<char>>, k: int) -> int
    decreases toks.len() - k,
{
    if 0 <= k < toks.len() && !eq_ignore_case(toks[k], "CNAME"@) {
        find_cname(toks, k + 1)
    } else {
        k
    }
}

/// The owner of an RPZ row, without trailing dots and one leading `*.`.
pub open spec fn rpz_owner(first: Seq<char>) -> Seq<char> {
    let o = trim_end_char(first, '.');
    if starts_with(o, "*."@) {
        o.skip(2)
    } else {
        o
    }
}

/// An RPZ `owner CNAME .` row (the NXDOMAIN policy) names this domain.
pub open spec fn rpz_spec(l: Seq<char>) -> Option<Seq<char>> {
    let toks = tokens_spec(l);
    let k = find_cname(toks, 1);
    if toks.len() == 0 || k >= toks.len() || k + 1 >= toks.len() || toks[k + 1] != "."@ {
        None
    } else {
        let owner = rpz_owner(toks[0]);
        if owner == "@"@ || (owner.len() > 0 && owner[0] == '$') {
            None
        } else {
            normalize_spec(owner)
        }
    }
}

pub open spec fn looks_like_rpz_preamble_spec(l: Seq<char>) -> bool {
    let toks = tokens_spec(l);
    toks.len() > 0 && ((toks[0].len() > 0 && toks[0][0] == '$') || exists|k: int|
        1 <= k < toks.len() && is_dns_word(#[trigger] toks[k]))
}

/// The normalised forms of the tokens that normalise, in order.
pub open spec fn normalize_all(toks: Seq<Seq<char>>) -> Seq<Seq<char>>
    decreases toks.len(),
{
    if toks.len() == 0 {
        seq![]
    } else {
        normalize_all(toks.drop_last()) + match normalize_spec(toks.last()) {
            Some(d) => seq![d],
            None => seq![],
        }
    }
}

/// The domains of a hosts row: after an IP address, every name that
/// normalises; before an IP address (or alone), the first name.
pub open spec fn hosts_spec(l: Seq<char>) -> Option<Seq<Seq<char>>> {
    let toks = tokens_spec(l);
    if toks.len() == 0 || looks_like_dns_record_line_spec(toks) {
        None
    } else {
        let ds = if is_ip_literal(toks[0]) {
            normalize_all(toks.skip(1))
        } else if toks.len() < 2 || is_ip_literal(toks[1]) {
            match normalize_spec(toks[0]) {
                Some(d) => seq![d],
                None => seq![],
            }
        } else {
            seq![]
        };
        if ds.len() == 0 {
            None
        } else {
            Some(ds)
        }
    }
}

/// Characters that end the domain of an anchored rule.
pub open spec fn is_boundary(c: char) -> bool {
    c == '^' || c == '|' || c == '/' || c == ':' || c == '?' || c == '#'
}

/// Index of the first boundary character at or after `i`.
pub open spec fn find_boundary(s: Seq<char>, i: int) -> int
    decreases s.len() - i,
{
    if 0 <= i < s.len() && !is_boundary(s[i]) {
        find_boundary(s, i + 1)
    } else {
        i
    }
}

/// The domain before the first boundary, unless that boundary starts a
/// path, port, query or fragment.
pub open spec fn until_boundary_spec(rest: Seq<char>) -> Option<Seq<char>> {
    let k = find_boundary(rest, 0);
    if k < rest.len() && (rest[k] == '/' || rest[k] == ':' || rest[k] == '?' || rest[k] == '#') {
        None
    } else {
        normalize_spec(rest.take(k))
    }
}

/// The exact domain of an Adblock/AdGuard network rule, if it has one.
pub open spec fn filter_spec(l: Seq<char>) -> Option<Seq<char>> {
    let c = trim(l.take(find_char(l, '$', 0)));
    if c.len() == 0 || c[0] == '/' || c.contains('*') || contains_seq(c, "##"@) || contains_seq(
        c,
        "#@#"@,
    ) || contains_seq(c, "#?#"@) || contains_seq(c, "#$#"@) {
        None
    } else if starts_with(c, "||"@) {
        until_boundary_spec(c.skip(2))
    } else if c[0] == '|' {
        let rest = c.skip(1);
        if starts_with(rest, "http://"@) || starts_with(rest, "https://"@) {
            None
        } else {
            until_boundary_spec(rest)
        }
    } else if c.contains('/') || c.contains('?') || c.contains('#') {
        None
    } else {
        normalize_spec(trim(trim_end_char(trim_end_char(c, '^'), '|')))
    }
}

pub open spec fn opt_seq(o: Option<Seq<char>>) -> Seq<Seq<char>> {
    match o {
        Some(d) => seq![d],
        None => seq![],
    }
}

/// The block and allow domains a line yields, in order.
pub open spec fn extract_spec(l: Seq<char>) -> (Seq<Seq<char>>, Seq<Seq<char>>) {
    if unbound_spec(l) is Some {
        (opt_seq(unbound_spec(l)), seq![])
    } else if rpz_spec(l) is Some {
        (opt_seq(rpz_spec(l)), seq![])
    } else if hosts_spec(l) is Some {
        (hosts_spec(l).unwrap(), seq![])
    } else if starts_with(l, "@@"@) {
        (seq![], opt_seq(filter_spec(trim(l.skip(2)))))
    } else {
        (opt_seq(filter_spec(l)), seq![])
    }
}

pub open spec fn looks_like_adblock(l: Seq<char>) -> bool {
    let body = if starts_with(l, "@@"@) {
        l.skip(2)
    } else {
        l
    };
    ||| starts_with(body, "||"@)
    ||| body.len() > 0 && body[0] == '|'
    ||| body.contains('$')
    ||| contains_seq(body, "##"@)
    ||| contains_seq(body, "#@#"@)
    ||| contains_seq(body, "#?#"@)
    ||| contains_seq(body, "#$#"@)
}

} // verus!

verus! {

// ---------------------------------------------------------------------------
// Line-level implementation
// ---------------------------------------------------------------------------

fn is_comment(l: &[char]) -> (b: bool)
    ensures
        b == is_comment_spec(l@),
{
    (l.len() > 0 && (l[0] == '#' || l[0] == '!' || l[0] == ';')) || (l.len() > 1 && l[0] == '/'
        && l[1] == '/')
}

fn is_inline_comment_token(t: &[char]) -> (b: bool)
    ensures
        b == is_inline_comment_token_spec(t@),
{
    (t.len() > 0 && (t[0] == '#' || t[0] == ';')) || (t.len() > 1 && t[0] == '/' && t[1] == '/')
}

/// The words of a line up to its first inline-comment token.
fn tokens_before_inline_comment(l: &[char]) -> (r: Vec<Vec<char>>)
    ensures
        char_views(r@) == tokens_spec(l@),
{
    let ws = words_of(l);
    let ghost wv = words(l@);
    let mut r: Vec<Vec<char>> = Vec::new();
    let mut i: usize = 0;
    while i < ws.len() && !is_inline_comment_token(ws[i].as_slice())
        invariant
            char_views(ws@) == wv,
            wv == words(l@),
            i <= ws@.len(),
            comment_cut(wv, i as int) == comment_cut(wv, 0),
            char_views(r@) == wv.take(i as int),
        decreases ws@.len() - i,
    {
        assert(wv[i as int] == ws@[i as int]@);
        let ghost old_r = char_views(r@);
        r.push(copy_range(ws[i].as_slice(), 0, ws[i].len()));
        assert(ws@[i as int]@.subrange(0, ws@[i as int]@.len() as int) =~= ws@[i as int]@);
        assert(char_views(r@) =~= old_r.push(wv[i as int]));
        assert(char_views(r@) =~= wv.take(i + 1));
        i += 1;
    }
    if i < ws.len() {
        assert(wv[i as int] == ws@[i as int]@);
    }
    assert(comment_cut(wv, i as int) == i);
    r
}

fn is_dns_class(t: &[char]) -> (b: bool)
    ensures
        b == is_dns_class_spec(t@),
{
    let u = to_lower(t);
    let u = u.as_slice();
    eq_str(u, "in") || eq_str(u, "ch") || eq_str(u, "hs")
}

fn is_dns_record_type(t: &[char]) -> (b: bool)
    ensures
        b == is_dns_record_type_spec(t@),
{
    let u = to_lower(t);
    let u = u.as_slice();
    eq_str(u, "a") || eq_str(u, "aaaa") || eq_str(u, "caa") || eq_str(u, "cname") || eq_str(
        u,
        "dnskey",
    ) || eq_str(u, "ds") || eq_str(u, "https") || eq_str(u, "mx") || eq_str(u, "ns") || eq_str(
        u,
        "ptr",
    ) || eq_str(u, "soa") || eq_str(u, "srv") || eq_str(u, "svcb") || eq_str(u, "txt")
}

fn is_dns_word_token(t: &[char]) -> (b: bool)
    ensures
        b == is_dns_word(t@),
{
    is_dns_class(t) || is_dns_record_type(t)
}

/// Whether one of the tokens from `from` up to (and including) `last`
/// names a DNS class or record type.
fn any_dns_word(toks: &Vec<Vec<char>>, from: usize, last: usize) -> (b: bool)
    ensures
        b == exists|k: int| from <= k < toks@.len() && k <= last && is_dns_word(
            #[trigger] char_views(toks@)[k],
        ),
{
    let mut k = from;
    while k < toks.len() && k <= last
        invariant
            from <= k,
            forall|j: int| from <= j < k && j < toks@.len() && j <= last ==> !is_dns_word(
                #[trigger] char_views(toks@)[j],
            ),
        decreases toks@.len() - k,
    {
        if is_dns_word_token(toks[k].as_slice()) {
            assert(is_dns_word(char_views(toks@)[k as int]));
            return true;
        }
        k += 1;
    }
    false
}

fn looks_like_dns_record_line(toks: &Vec<Vec<char>>) -> (b: bool)
    ensures
        b == looks_like_dns_record_line_spec(char_views(toks@)),
{
    any_dns_word(toks, 1, 4)
}

/// The first configuration value of an Unbound row.
fn extract_first_config_value(input: &[char]) -> (r: Option<Vec<char>>)
    ensures
        match r {
            Some(v) => first_config_value(input@) == Some(v@),
            None => first_config_value(input@) is None,
        },
{
    let t = trim_chars(input);
    if t.len() > 0 && t[0] == '"' {
        let rest = copy_range(t.as_slice(), 1, t.len());
        assert(rest@ =~= t@.drop_first());
        let k = find_char_from(rest.as_slice(), '"', 0);
        if k < rest.len() {
            let v = copy_range(rest.as_slice(), 0, k);
            assert(v@ =~= rest@.take(k as int));
            Some(trim_chars(v.as_slice()))
        } else {
            None
        }
    } else {
        let ws = words_of(t.as_slice());
        if ws.len() > 0 {
            assert(words(t@)[0] == ws@[0]@);
            let w = &ws[0];
            Some(copy_range(w.as_slice(), 0, w.len()))
        } else {
            None
        }
    }
}

fn normalize_opt(v: Option<Vec<char>>) -> (r: Option<String>)
    ensures
        match v {
            Some(x) => opt_view(r) == normalize_spec(x@),
            None => r is None,
        },
        r matches Some(d) ==> is_normalized(d@),
{
    match v {
        Some(x) => normalize_chars(x.as_slice()),
        None => None,
    }
}

/// The domain of an Unbound `local-zone:` or `local-data:` row.
fn extract_unbound_line(l: &[char]) -> (r: Option<String>)
    ensures
        opt_view(r) == unbound_spec(l@),
        r matches Some(d) ==> is_normalized(d@),
{
    let t = trim_start_chars(l);
    if starts_with_str(t.as_slice(), "local-zone:") {
        let n = "local-zone:".unicode_len();
        let rest = copy_range(t.as_slice(), n, t.len());
        assert(rest@ =~= t@.skip("local-zone:"@.len() as int));
        return normalize_opt(extract_first_config_value(rest.as_slice()));
    }
    if starts_with_str(t.as_slice(), "local-data:") {
        let n = "local-data:".unicode_len();
        let rest = copy_range(t.as_slice(), n, t.len());
        assert(rest@ =~= t@.skip("local-data:"@.len() as int));
        match extract_first_config_value(rest.as_slice()) {
            Some(v) => {
                let ws = words_of(v.as_slice());
                if ws.len() > 0 {
                    assert(words(v@)[0] == ws@[0]@);
                    return normalize_chars(ws[0].as_slice());
                }
                return None;
            },
            None => {
                return None;
            },
        }
    }
    None
}

fn looks_like_unbound_line(l: &[char]) -> (b: bool)
    ensures
        b == looks_like_unbound(l@),
{
    let t = trim_start_chars(l);
    eq_str(t.as_slice(), "server:") || starts_with_str(t.as_slice(), "local-zone:")
        || starts_with_str(t.as_slice(), "local-data:")
}

/// The domain of an RPZ `owner CNAME .` row.
fn extract_rpz_line(l: &[char]) -> (r: Option<String>)
    ensures
        opt_view(r) == rpz_spec(l@),
        r matches Some(d) ==> is_normalized(d@),
{
    let toks = tokens_before_inline_comment(l);
    let ghost tv = char_views(toks@);
    if toks.len() == 0 {
        return None;
    }
    let mut k: usize = 1;
    while k < toks.len() && !eq_ignore_case_str(toks[k].as_slice(), "CNAME")
        invariant
            tv == char_views(toks@),
            1 <= k <= toks@.len(),
            find_cname(tv, k as int) == find_cname(tv, 1),
        decreases toks@.len() - k,
    {
        assert(tv[k as int] == toks@[k as int]@);
        k += 1;
    }
    if k < toks.len() {
        assert(tv[k as int] == toks@[k as int]@);
    }
    if k >= toks.len() || k + 1 >= toks.len() || !eq_str(toks[k + 1].as_slice(), ".") {
        if k < toks.len() && k + 1 < toks.len() {
            assert(tv[k + 1] == toks@[k + 1]@);
        }
        return None;
    }
    assert(tv[k + 1] == toks@[k + 1]@);
    assert(tv[0] == toks@[0]@);
    let o = trim_end_matches(toks[0].as_slice(), '.');
    let owner = if starts_with_str(o.as_slice(), "*.") {
        proof {
            reveal_strlit("*.");
        }
        copy_range(o.as_slice(), 2, o.len())
    } else {
        o
    };
    assert(owner@ =~= rpz_owner(tv[0]));
    if eq_str(owner.as_slice(), "@") || (owner.len() > 0 && owner[0] == '$') {
        return None;
    }
    normalize_chars(owner.as_slice())
}

/// `eq_ignore_ascii_case` against a literal.
fn eq_ignore_case_str(t: &[char], p: &str) -> (b: bool)
    ensures
        b == eq_ignore_case(t@, p@),
{
    let pc = chars_of(p);
    let a = to_lower(t);
    let b = to_lower(pc.as_slice());
    eq_chars(a.as_slice(), b.as_slice())
}

fn looks_like_rpz_preamble(l: &[char]) -> (b: bool)
    ensures
        b == looks_like_rpz_preamble_spec(l@),
{
    let toks = tokens_before_inline_comment(l);
    if toks.len() == 0 {
        return false;
    }
    assert(char_views(toks@)[0] == toks@[0]@);
    (toks[0].len() > 0 && toks[0][0] == '$') || any_dns_word(&toks, 1, toks.len())
}

/// The normalised forms of `toks[from..]` that exist, in order.
fn normalize_tokens(toks: &Vec<Vec<char>>, from: usize) -> (r: Vec<String>)
    requires
        from <= toks@.len(),
    ensures
        views(r@) == normalize_all(char_views(toks@).skip(from as int)),
        forall|i: int| 0 <= i < r@.len() ==> is_normalized(#[trigger] r@[i]@),
{
    let ghost tv = char_views(toks@).skip(from as int);
    let mut r: Vec<String> = Vec::new();
    let mut i = from;
    while i < toks.len()
        invariant
            tv == char_views(toks@).skip(from as int),
            from <= i <= toks@.len(),
            views(r@) == normalize_all(tv.take(i - from)),
            forall|k: int| 0 <= k < r@.len() ==> is_normalized(#[trigger] r@[k]@),
        decreases toks@.len() - i,
    {
        let ghost before = views(r@);
        assert(tv.take(i + 1 - from).drop_last() =~= tv.take(i - from));
        assert(tv.take(i + 1 - from).last() == toks@[i as int]@);
        match normalize_chars(toks[i].as_slice()) {
            Some(d) => {
                r.push(d);
                assert(views(r@) =~= before.push(r@.last()@));
            },
            None => {},
        }
        assert(views(r@) =~= normalize_all(tv.take(i + 1 - from)));
        i += 1;
    }
    assert(tv.take(toks@.len() - from) =~= tv);
    r
}

/// The domains of a hosts row.
fn extract_hosts_line(l: &[char]) -> (r: Option<Vec<String>>)
    ensures
        match r {
            Some(ds) => hosts_spec(l@) == Some(views(ds@)),
            None => hosts_spec(l@) is None,
        },
        r matches Some(ds) ==> forall|i: int| 0 <= i < ds@.len() ==> is_normalized(
            #[trigger] ds@[i]@,
        ),
{
    let toks = tokens_before_inline_comment(l);
    let ghost tv = char_views(toks@);
    if toks.len() == 0 || looks_like_dns_record_line(&toks) {
        return None;
    }
    assert(tv[0] == toks@[0]@);
    let domains: Vec<String> = if chars_parse_as_ip(toks[0].as_slice()) {
        normalize_tokens(&toks, 1)
    } else if toks.len() < 2 || chars_parse_as_ip(toks[1].as_slice()) {
        proof {
            if toks@.len() >= 2 {
                assert(tv[1] == toks@[1]@);
            }
        }
        let mut v: Vec<String> = Vec::new();
        match normalize_chars(toks[0].as_slice()) {
            Some(d) => {
                v.push(d);
                assert(views(v@) =~= seq![v@[0]@]);
            },
            None => {
                assert(views(v@) =~= Seq::<Seq<char>>::empty());
            },
        }
        v
    } else {
        assert(tv[1] == toks@[1]@);
        let v: Vec<String> = Vec::new();
        assert(views(v@) =~= Seq::<Seq<char>>::empty());
        v
    };
    if domains.len() == 0 {
        None
    } else {
        Some(domains)
    }
}

fn is_boundary_char(c: char) -> (b: bool)
    ensures
        b == is_boundary(c),
{
    c == '^' || c == '|' || c == '/' || c == ':' || c == '?' || c == '#'
}

/// The domain of an anchored rule, up to its first boundary character.
fn extract_until_exact_boundary(rest: &[char]) -> (r: Option<String>)
    ensures
        opt_view(r) == until_boundary_spec(rest@),
        r matches Some(d) ==> is_normalized(d@),
{
    let mut k: usize = 0;
    while k < rest.len() && !is_boundary_char(rest[k])
        invariant
            k <= rest@.len(),
            find_boundary(rest@, k as int) == find_boundary(rest@, 0),
        decreases rest@.len() - k,
    {
        k += 1;
    }
    if k < rest.len() && (rest[k] == '/' || rest[k] == ':' || rest[k] == '?' || rest[k] == '#') {
        return None;
    }
    let d = copy_range(rest, 0, k);
    assert(d@ =~= rest@.take(k as int));
    normalize_chars(d.as_slice())
}

/// The domain of a `||domain^` rule.
fn extract_double_anchor(rest: &[char]) -> (r: Option<String>)
    ensures
        opt_view(r) == until_boundary_spec(rest@),
        r matches Some(d) ==> is_normalized(d@),
{
    extract_until_exact_boundary(rest)
}

/// The exact domain of an Adblock/AdGuard network rule.
fn extract_filter_domain(l: &[char]) -> (r: Option<String>)
    ensures
        opt_view(r) == filter_spec(l@),
        r matches Some(d) ==> is_normalized(d@),
{
    let cut = find_char_from(l, '$', 0);
    let before = copy_range(l, 0, cut);
    assert(before@ =~= l@.take(find_char(l@, '$', 0)));
    let c = trim_chars(before.as_slice());
    let cs = c.as_slice();
    if c.len() == 0 || c[0] == '/' || contains_char(cs, '*') || contains_str(cs, "##")
        || contains_str(cs, "#@#") || contains_str(cs, "#?#") || contains_str(cs, "#$#") {
        return None;
    }
    if starts_with_str(cs, "||") {
        proof {
            reveal_strlit("||");
        }
        let rest = copy_range(cs, 2, c.len());
        assert(rest@ =~= c@.skip(2));
        return extract_double_anchor(rest.as_slice());
    }
    if c[0] == '|' {
        let rest = copy_range(cs, 1, c.len());
        assert(rest@ =~= c@.skip(1));
        if starts_with_str(rest.as_slice(), "http://") || starts_with_str(
            rest.as_slice(),
            "https://",
        ) {
            return None;
        }
        return extract_until_exact_boundary(rest.as_slice());
    }
    if contains_char(cs, '/') || contains_char(cs, '?') || contains_char(cs, '#') {
        return None;
    }
    let a = trim_end_matches(cs, '^');
    let b = trim_end_matches(a.as_slice(), '|');
    let bare = trim_chars(b.as_slice());
    normalize_chars(bare.as_slice())
}

fn looks_like_adblock_line(l: &[char]) -> (b: bool)
    ensures
        b == looks_like_adblock(l@),
{
    let body = if starts_with_str(l, "@@") {
        proof {
            reveal_strlit("@@");
        }
        copy_range(l, 2, l.len())
    } else {
        copy_range(l, 0, l.len())
    };
    assert(body@ =~= (if starts_with(l@, "@@"@) {
        l@.skip(2)
    } else {
        l@
    }));
    let bs = body.as_slice();
    starts_with_str(bs, "||") || (body.len() > 0 && body[0] == '|') || contains_char(bs, '$')
        || contains_str(bs, "##") || contains_str(bs, "#@#") || contains_str(bs, "#?#")
        || contains_str(bs, "#$#")
}

/// The block and allow domains of a line.
fn extract_domains(l: &[char]) -> (r: (Vec<String>, Vec<String>))
    ensures
        views(r.0@) == extract_spec(l@).0,
        views(r.1@) == extract_spec(l@).1,
        forall|i: int| 0 <= i < r.0@.len() ==> is_normalized(#[trigger] r.0@[i]@),
        forall|i: int| 0 <= i < r.1@.len() ==> is_normalized(#[trigger] r.1@[i]@),
{
    let none: Vec<String> = Vec::new();
    assert(views(none@) =~= Seq::<Seq<char>>::empty());
    if let Some(d) = extract_unbound_line(l) {
        let mut v: Vec<String> = Vec::new();
        v.push(d);
        assert(views(v@) =~= opt_seq(unbound_spec(l@)));
        return (v, none);
    }
    if let Some(d) = extract_rpz_line(l) {
        let mut v: Vec<String> = Vec::new();
        v.push(d);
        assert(views(v@) =~= opt_seq(rpz_spec(l@)));
        return (v, none);
    }
    if let Some(ds) = extract_hosts_line(l) {
        return (ds, none);
    }
    if starts_with_str(l, "@@") {
        proof {
            reveal_strlit("@@");
        }
        let rest = copy_range(l, 2, l.len());
        assert(rest@ =~= l@.skip(2));
        let body = trim_chars(rest.as_slice());
        let mut v: Vec<String> = Vec::new();
        if let Some(d) = extract_filter_domain(body.as_slice()) {
            v.push(d);
        }
        assert(views(v@) =~= opt_seq(filter_spec(trim(l@.skip(2)))));
        return (none, v);
    }
    let mut v: Vec<String> = Vec::new();
    if let Some(d) = extract_filter_domain(l) {
        v.push(d);
    }
    assert(views(v@) =~= opt_seq(filter_spec(l@)));
    (v, none)
}

} // verus!

verus! {

// ---------------------------------------------------------------------------
// Sources
// ---------------------------------------------------------------------------

/// What `String::from_utf8_lossy` makes of `bytes`.
pub uninterp spec fn utf8_lossy(bytes: Seq<u8>) -> Seq<char>;

/// Trusted: `String::from_utf8_lossy`, whose result is named `utf8_lossy`;
/// as its documentation states, valid UTF-8 comes back unchanged.
#[verifier::external_body]
fn decode_lossy(bytes: &[u8]) -> (s: String)
    ensures
        s@ == utf8_lossy(bytes@),
        vstd::utf8::valid_utf8(bytes@) ==> s@ == vstd::utf8::decode_utf8(bytes@),
{
    String::from_utf8_lossy(bytes).into_owned()
}

/// The list format a source appears to be written in.
#[derive(Debug, Clone, Copy, Default, PartialEq, Eq)]
pub enum SourceFormat {
    #[default]
    Hostfile,
    Adblock,
    Unbound,
    Rpz,
}

pub open spec fn format_name(f: SourceFormat) -> Seq<char> {
    match f {
        SourceFormat::Hostfile => "hostfile"@,
        SourceFormat::Adblock => "adblock"@,
        SourceFormat::Unbound => "unbound"@,
        SourceFormat::Rpz => "rpz"@,
    }
}

impl SourceFormat {
    pub fn as_str(self) -> (s: &'static str)
        ensures
            s@ == format_name(self),
    {
        match self {
            SourceFormat::Hostfile => "hostfile",
            SourceFormat::Adblock => "adblock",
            SourceFormat::Unbound => "unbound",
            SourceFormat::Rpz => "rpz",
        }
    }
}

/// Line counts gathered while parsing a source.
#[derive(Debug, Clone, Default)]
pub struct ParseStats {
    pub total_lines: usize,
    pub blank_lines: usize,
    pub comment_lines: usize,
    pub accepted_blocks: usize,
    pub accepted_allows: usize,
    pub rejected_lines: usize,
    pub duplicate_blocks: usize,
    pub duplicate_allows: usize,
}

/// The outcome of parsing one source.
#[derive(Debug)]
pub struct ParsedSource {
    pub detected_format: SourceFormat,
    pub blocks: StringSet,
    pub allows: StringSet,
    pub stats: ParseStats,
}

/// Line `i` as the parser sees it: trimmed; the first line also loses its
/// leading byte-order marks.
pub open spec fn prepared(ls: Seq<Seq<char>>, i: int) -> Seq<char> {
    if i == 0 {
        trim_start_char(trim(ls[i]), '\u{feff}')
    } else {
        trim(ls[i])
    }
}

/// How a prepared line is counted.
#[derive(PartialEq, Eq)]
pub enum LineKind {
    Blank,
    Comment,
    Rejected,
    Accepted,
}

pub open spec fn line_kind(l: Seq<char>) -> LineKind {
    if l.len() == 0 {
        LineKind::Blank
    } else if is_comment_spec(l) {
        LineKind::Comment
    } else if extract_spec(l).0.len() == 0 && extract_spec(l).1.len() == 0 {
        LineKind::Rejected
    } else {
        LineKind::Accepted
    }
}

/// Number of the first `n` lines of the given kind.
pub open spec fn count_kind(ls: Seq<Seq<char>>, n: int, k: LineKind) -> nat
    decreases n,
{
    if n <= 0 {
        0
    } else {
        count_kind(ls, n - 1, k) + if line_kind(prepared(ls, n - 1)) == k {
            1nat
        } else {
            0nat
        }
    }
}

/// Blocks a prepared line contributes (none for blank lines and comments).
pub open spec fn line_blocks(l: Seq<char>) -> Seq<Seq<char>> {
    if l.len() == 0 || is_comment_spec(l) {
        seq![]
    } else {
        extract_spec(l).0
    }
}

/// Allows a prepared line contributes.
pub open spec fn line_allows(l: Seq<char>) -> Seq<Seq<char>> {
    if l.len() == 0 || is_comment_spec(l) {
        seq![]
    } else {
        extract_spec(l).1
    }
}

/// Every block domain found in the first `n` lines, duplicates included.
pub open spec fn blocks_upto(ls: Seq<Seq<char>>, n: int) -> Seq<Seq<char>>
    decreases n,
{
    if n <= 0 {
        seq![]
    } else {
        blocks_upto(ls, n - 1) + line_blocks(prepared(ls, n - 1))
    }
}

/// Every allow domain found in the first `n` lines, duplicates included.
pub open spec fn allows_upto(ls: Seq<Seq<char>>, n: int) -> Seq<Seq<char>>
    decreases n,
{
    if n <= 0 {
        seq![]
    } else {
        allows_upto(ls, n - 1) + line_allows(prepared(ls, n - 1))
    }
}

/// Format scores of a prepared line: (Unbound, RPZ, Adblock, hosts).
pub open spec fn line_scores(l: Seq<char>) -> (int, int, int, int) {
    if l.len() == 0 || is_comment_spec(l) {
        (0, 0, 0, 0)
    } else {
        (
            if looks_like_unbound(l) {
                4
            } else {
                0
            },
            if rpz_spec(l) is Some || looks_like_rpz_preamble_spec(l) {
                4
            } else {
                0
            },
            if looks_like_adblock(l) {
                3
            } else {
                0
            },
            if hosts_spec(l) is Some {
                1
            } else {
                0
            },
        )
    }
}

/// Sums of the scores of the first `n` lines.
pub open spec fn scores_upto(ls: Seq<Seq<char>>, n: int) -> (int, int, int, int)
    decreases n,
{
    if n <= 0 {
        (0, 0, 0, 0)
    } else {
        let s = scores_upto(ls, n - 1);
        let t = line_scores(prepared(ls, n - 1));
        (s.0 + t.0, s.1 + t.1, s.2 + t.2, s.3 + t.3)
    }
}

/// The format with the highest score; among equal scores the one listed
/// last in Unbound, RPZ, Adblock, hosts wins.
pub open spec fn pick_format(u: int, r: int, a: int, h: int) -> SourceFormat {
    if h >= a && h >= r && h >= u {
        SourceFormat::Hostfile
    } else if a >= r && a >= u {
        SourceFormat::Adblock
    } else if r >= u {
        SourceFormat::Rpz
    } else {
        SourceFormat::Unbound
    }
}

pub open spec fn detect_spec(text: Seq<char>) -> SourceFormat {
    let ls = lines(text);
    let s = scores_upto(ls, ls.len() as int);
    pick_format(s.0, s.1, s.2, s.3)
}

pub proof fn lemma_scores_bounded(ls: Seq<Seq<char>>, n: int)
    requires
        n >= 0,
    ensures
        0 <= scores_upto(ls, n).0 <= 4 * n,
        0 <= scores_upto(ls, n).1 <= 4 * n,
        0 <= scores_upto(ls, n).2 <= 3 * n,
        0 <= scores_upto(ls, n).3 <= n,
    decreases n,
{
    if n > 0 {
        lemma_scores_bounded(ls, n - 1);
    }
}

pub proof fn lemma_count_kind_bounded(ls: Seq<Seq<char>>, n: int, k: LineKind)
    requires
        n >= 0,
    ensures
        count_kind(ls, n, k) <= n,
    decreases n,
{
    if n > 0 {
        lemma_count_kind_bounded(ls, n - 1, k);
    }
}

/// The line starting at `pos` and the index where the next one starts.
fn next_line(text: &[char], pos: usize) -> (r: (Vec<char>, usize))
    requires
        pos < text@.len(),
    ensures
        pos < r.1 <= text@.len(),
        lines_from(text@, pos as int) == seq![r.0@] + lines_from(text@, r.1 as int),
{
    let k = find_char_from(text, '\n', pos);
    proof {
        lemma_find_char(text@, '\n', pos as int);
    }
    if k == text.len() {
        let line = copy_range(text, pos, k);
        assert(lines_from(text@, k as int) =~= Seq::<Seq<char>>::empty());
        assert(lines_from(text@, pos as int) =~= seq![line@] + lines_from(text@, k as int));
        (line, k)
    } else {
        let mut line = copy_range(text, pos, k);
        if line.len() > 0 && line[line.len() - 1] == '\r' {
            line.pop();
        }
        assert(line@ =~= strip_cr(text@.subrange(pos as int, k as int)));
        (line, k + 1)
    }
}

/// Line `idx` trimmed (the first one also without leading byte-order marks).
fn prepare_line(raw: &[char], idx: usize) -> (r: Vec<char>)
    ensures
        idx == 0 ==> r@ == trim_start_char(trim(raw@), '\u{feff}'),
        idx != 0 ==> r@ == trim(raw@),
{
    let t = trim_chars(raw);
    if idx == 0 {
        trim_start_matches(t.as_slice(), '\u{feff}')
    } else {
        t
    }
}

fn pick(u: u128, r: u128, a: u128, h: u128) -> (f: SourceFormat)
    ensures
        f == pick_format(u as int, r as int, a as int, h as int),
{
    if h >= a && h >= r && h >= u {
        SourceFormat::Hostfile
    } else if a >= r && a >= u {
        SourceFormat::Adblock
    } else if r >= u {
        SourceFormat::Rpz
    } else {
        SourceFormat::Unbound
    }
}

fn detect_chars(text: &[char]) -> (f: SourceFormat)
    ensures
        f == detect_spec(text@),
{
    let ghost ls = lines(text@);
    proof {
        lemma_lines_from_len(text@, 0);
    }
    let mut u: u128 = 0;
    let mut r: u128 = 0;
    let mut a: u128 = 0;
    let mut h: u128 = 0;
    let mut pos: usize = 0;
    let mut idx: usize = 0;
    assert(ls.skip(0) =~= ls);
    while pos < text.len()
        invariant
            ls == lines(text@),
            ls.len() <= text@.len(),
            pos <= text@.len(),
            idx <= ls.len(),
            ls.skip(idx as int) == lines_from(text@, pos as int),
            scores_upto(ls, idx as int) == (u as int, r as int, a as int, h as int),
        decreases text@.len() - pos,
    {
        let (raw, next) = next_line(text, pos);
        assert(ls.skip(idx as int).len() > 0);
        assert(ls[idx as int] == raw@) by {
            assert(ls.skip(idx as int)[0] == ls[idx as int]);
        }
        let line = prepare_line(raw.as_slice(), idx);
        let l = line.as_slice();
        proof {
            lemma_scores_bounded(ls, idx as int);
            assert(l@ == prepared(ls, idx as int));
        }
        if !(l.len() == 0 || is_comment(l)) {
            if looks_like_unbound_line(l) {
                u = u + 4;
            }
            if extract_rpz_line(l).is_some() || looks_like_rpz_preamble(l) {
                r = r + 4;
            }
            if looks_like_adblock_line(l) {
                a = a + 3;
            }
            if extract_hosts_line(l).is_some() {
                h = h + 1;
            }
        }
        assert(ls.skip(idx + 1) =~= ls.skip(idx as int).drop_first());
        pos = next;
        idx = idx + 1;
    }
    assert(lines_from(text@, pos as int) =~= Seq::<Seq<char>>::empty());
    pick(u, r, a, h)
}

/// Guesses the list format of a text: every non-blank, non-comment line
/// scores 4 for Unbound if it looks like an Unbound row, 4 for RPZ if it is
/// an RPZ policy row or preamble, 3 for Adblock if it looks like a filter
/// rule and 1 for hosts if it yields hosts domains; the highest total wins.
pub fn detect_source_format(text: &str) -> (f: SourceFormat)
    ensures
        f == detect_spec(text@),
{
    let chars = chars_of(text);
    detect_chars(chars.as_slice())
}

/// Parses the body of a source.
pub fn parse_source_bytes(body: &[u8]) -> (p: ParsedSource)
    ensures
        ({
            let ls = lines(utf8_lossy(body@));
            let n = ls.len() as int;
            &&& p.detected_format == detect_spec(utf8_lossy(body@))
            &&& p.blocks@ == blocks_upto(ls, n).to_set()
            &&& p.allows@ == allows_upto(ls, n).to_set()
            &&& p.stats.total_lines == n
            &&& p.stats.blank_lines == count_kind(ls, n, LineKind::Blank)
            &&& p.stats.comment_lines == count_kind(ls, n, LineKind::Comment)
            &&& p.stats.rejected_lines == count_kind(ls, n, LineKind::Rejected)
            &&& p.stats.accepted_blocks == p.blocks@.len()
            &&& p.stats.accepted_allows == p.allows@.len()
            &&& p.stats.duplicate_blocks == blocks_upto(ls, n).len() - p.blocks@.len()
            &&& p.stats.duplicate_allows == allows_upto(ls, n).len() - p.allows@.len()
        }),
        forall|d: Seq<char>| p.blocks@.contains(d) ==> is_normalized(d),
        forall|d: Seq<char>| p.allows@.contains(d) ==> is_normalized(d),
        vstd::utf8::valid_utf8(body@) ==> utf8_lossy(body@) == vstd::utf8::decode_utf8(body@),
{
    let s = decode_lossy(body);
    let chars = chars_of(s.as_str());
    let text = chars.as_slice();
    let detected_format = detect_chars(text);
    let ghost ls = lines(text@);
    proof {
        lemma_lines_from_len(text@, 0);
    }
    let mut blank: usize = 0;
    let mut comment: usize = 0;
    let mut rejected: usize = 0;
    let mut block_found: Vec<String> = Vec::new();
    let mut allow_found: Vec<String> = Vec::new();
    let mut pos: usize = 0;
    let mut idx: usize = 0;
    assert(ls.skip(0) =~= ls);
    assert(views(block_found@) =~= blocks_upto(ls, 0));
    assert(views(allow_found@) =~= allows_upto(ls, 0));
    while pos < text.len()
        invariant
            ls == lines(text@),
            ls.len() <= text@.len(),
            pos <= text@.len(),
            idx <= ls.len(),
            ls.skip(idx as int) == lines_from(text@, pos as int),
            blank == count_kind(ls, idx as int, LineKind::Blank),
            comment == count_kind(ls, idx as int, LineKind::Comment),
            rejected == count_kind(ls, idx as int, LineKind::Rejected),
            views(block_found@) == blocks_upto(ls, idx as int),
            views(allow_found@) == allows_upto(ls, idx as int),
            forall|i: int| 0 <= i < block_found@.len() ==> is_normalized(#[trigger] block_found@[i]@),
            forall|i: int| 0 <= i < allow_found@.len() ==> is_normalized(#[trigger] allow_found@[i]@),
        decreases text@.len() - pos,
    {
        let (raw, next) = next_line(text, pos);
        assert(ls.skip(idx as int).len() > 0);
        assert(ls[idx as int] == raw@) by {
            assert(ls.skip(idx as int)[0] == ls[idx as int]);
        }
        let line = prepare_line(raw.as_slice(), idx);
        let l = line.as_slice();
        proof {
            lemma_count_kind_bounded(ls, idx as int, LineKind::Blank);
            lemma_count_kind_bounded(ls, idx as int, LineKind::Comment);
            lemma_count_kind_bounded(ls, idx as int, LineKind::Rejected);
            assert(l@ == prepared(ls, idx as int));
        }
        let ghost old_blocks = views(block_found@);
        let ghost old_allows = views(allow_found@);
        if l.len() == 0 {
            blank = blank + 1;
            assert(views(block_found@) =~= old_blocks + line_blocks(l@));
            assert(views(allow_found@) =~= old_allows + line_allows(l@));
        } else if is_comment(l) {
            comment = comment + 1;
            assert(views(block_found@) =~= old_blocks + line_blocks(l@));
            assert(views(allow_found@) =~= old_allows + line_allows(l@));
        } else {
            let (bs, als) = extract_domains(l);
            if bs.len() == 0 && als.len() == 0 {
                rejected = rejected + 1;
            }
            let mut j: usize = 0;
            while j < bs.len()
                invariant
                    j <= bs@.len(),
                    views(block_found@) == old_blocks + views(bs@).take(j as int),
                    forall|i: int| 0 <= i < bs@.len() ==> is_normalized(#[trigger] bs@[i]@),
                    forall|i: int| 0 <= i < block_found@.len() ==> is_normalized(
                        #[trigger] block_found@[i]@,
                    ),
                decreases bs@.len() - j,
            {
                let ghost prev = views(block_found@);
                let x = bs[j].clone();
                block_found.push(x);
                assert(views(block_found@) =~= prev.push(bs@[j as int]@));
                assert(views(bs@).take(j + 1) =~= views(bs@).take(j as int).push(bs@[j as int]@));
                assert(views(block_found@) =~= old_blocks + views(bs@).take(j + 1));
                j += 1;
            }
            assert(views(bs@).take(bs@.len() as int) =~= views(bs@));
            let mut j: usize = 0;
            while j < als.len()
                invariant
                    j <= als@.len(),
                    views(allow_found@) == old_allows + views(als@).take(j as int),
                    forall|i: int| 0 <= i < als@.len() ==> is_normalized(#[trigger] als@[i]@),
                    forall|i: int| 0 <= i < allow_found@.len() ==> is_normalized(
                        #[trigger] allow_found@[i]@,
                    ),
                decreases als@.len() - j,
            {
                let ghost prev = views(allow_found@);
                let x = als[j].clone();
                allow_found.push(x);
                assert(views(allow_found@) =~= prev.push(als@[j as int]@));
                assert(views(als@).take(j + 1) =~= views(als@).take(j as int).push(als@[j as int]@));
                assert(views(allow_found@) =~= old_allows + views(als@).take(j + 1));
                j += 1;
            }
            assert(views(als@).take(als@.len() as int) =~= views(als@));
        }
        assert(ls.skip(idx + 1) =~= ls.skip(idx as int).drop_first());
        pos = next;
        idx = idx + 1;
    }
    assert(lines_from(text@, pos as int) =~= Seq::<Seq<char>>::empty());
    let found_blocks = block_found.len();
    let found_allows = allow_found.len();
    let ghost bf = views(block_found@);
    let ghost af = views(allow_found@);
    let blocks = StringSet::from_vec(block_found);
    let allows = StringSet::from_vec(allow_found);
    let nb = blocks.len();
    let na = allows.len();
    proof {
        bf.lemma_cardinality_of_set();
        af.lemma_cardinality_of_set();
        assert forall|d: Seq<char>| blocks@.contains(d) implies is_normalized(d) by {
            let k = choose|k: int| 0 <= k < bf.len() && bf[k] == d;
        }
        assert forall|d: Seq<char>| allows@.contains(d) implies is_normalized(d) by {
            let k = choose|k: int| 0 <= k < af.len() && af[k] == d;
        }
    }
    let stats = ParseStats {
        total_lines: idx,
        blank_lines: blank,
        comment_lines: comment,
        accepted_blocks: nb,
        accepted_allows: na,
        rejected_lines: rejected,
        duplicate_blocks: found_blocks - nb,
        duplicate_allows: found_allows - na,
    };
    ParsedSource { detected_format, blocks, allows, stats }
}

} // verus!

verus! {

/// Every line is blank, a comment, rejected or accepted: the four counts
/// add up to the number of lines.
pub proof fn law_line_kinds_partition(ls: Seq<Seq<char>>, n: int)
    requires
        n >= 0,
    ensures
        count_kind(ls, n, LineKind::Blank) + count_kind(ls, n, LineKind::Comment) + count_kind(
            ls,
            n,
            LineKind::Rejected,
        ) + count_kind(ls, n, LineKind::Accepted) == n,
    decreases n,
{
    if n > 0 {
        law_line_kinds_partition(ls, n - 1);
    }
}

/// The detected format has the highest score.
pub proof fn law_detected_format_scores_highest(u: int, r: int, a: int, h: int)
    ensures
        ({
            let best = match pick_format(u, r, a, h) {
                SourceFormat::Unbound => u,
                SourceFormat::Rpz => r,
                SourceFormat::Adblock => a,
                SourceFormat::Hostfile => h,
            };
            best >= u && best >= r && best >= a && best >= h
        }),
{
}

/// A line that yields any domain is an accepted line; a rejected line
/// yields none.
pub proof fn law_rejected_lines_yield_nothing(l: Seq<char>)
    ensures
        line_kind(l) == LineKind::Rejected ==> line_blocks(l).len() == 0 && line_allows(l).len() == 0,
        line_kind(l) == LineKind::Blank || line_kind(l) == LineKind::Comment ==> line_blocks(l).len()
            == 0 && line_allows(l).len() == 0,
{
}

} // verus!

verus! {

/// A prepared line that counts as blank or as a comment.
pub open spec fn blank_or_comment(l: Seq<char>) -> bool {
    l.len() == 0 || is_comment_spec(l)
}

proof fn lemma_trim_strip_cr(u: Seq<char>)
    ensures
        trim(strip_cr(u)) == trim(u),
{
    if u.len() > 0 && u.last() == '\r' {
        assert(u.drop_last().push('\r') =~= u);
        crate::text::lemma_trim_push_ws(u.drop_last(), '\r');
    }
}

/// The lines of `t`, a newline, then `x`, against the lines of `t`: the
/// lines of `t` come first, trimmed alike, followed by the lines of `x`,
/// possibly after one empty line.
proof fn lemma_lines_append(t: Seq<char>, x: Seq<char>, i: int)
    requires
        0 <= i <= t.len(),
    ensures
        ({
            let s = t + seq!['\n'] + x;
            let l = lines_from(t, i);
            let sl = lines_from(s, i);
            &&& sl.len() >= l.len()
            &&& forall|k: int| 0 <= k < l.len() ==> trim(#[trigger] sl[k]) == trim(l[k])
            &&& (sl.skip(l.len() as int) == lines(x) || sl.skip(l.len() as int) == seq![
                Seq::<char>::empty(),
            ] + lines(x))
            &&& l.len() == 0 ==> sl == seq![Seq::<char>::empty()] + lines(x)
        }),
    decreases t.len() - i,
{
    let s = t + seq!['\n'] + x;
    let p = t + seq!['\n'];
    assert(s =~= t + (seq!['\n'] + x));
    assert(s[t.len() as int] == '\n');
    crate::text::lemma_lines_from_shift(p, x, 0);
    assert(p.len() + 0 == t.len() + 1);
    if i == t.len() {
        assert(find_char(s, '\n', i) == i);
        assert(s.subrange(i, i) =~= Seq::<char>::empty());
        assert(strip_cr(Seq::<char>::empty()) =~= Seq::<char>::empty());
        assert(lines_from(t, i) =~= Seq::<Seq<char>>::empty());
        assert(lines_from(s, i) =~= seq![Seq::<char>::empty()] + lines(x));
        assert(lines_from(s, i).skip(0) =~= lines_from(s, i));
    } else {
        crate::text::lemma_find_char_prefix(t, seq!['\n'] + x, '\n', i);
        lemma_find_char(t, '\n', i);
        let k = find_char(t, '\n', i);
        assert(find_char(s, '\n', t.len() as int) == t.len());
        if k < t.len() {
            lemma_lines_append(t, x, k + 1);
            assert(s.subrange(i, k) =~= t.subrange(i, k));
            let l2 = lines_from(t, k + 1);
            let s2 = lines_from(s, k + 1);
            let h = strip_cr(t.subrange(i, k));
            assert(lines_from(t, i) == seq![h] + l2);
            assert(lines_from(s, i) == seq![h] + s2);
            assert(lines_from(s, i).skip(1 + l2.len() as int) =~= s2.skip(l2.len() as int));
            assert forall|j: int| 0 <= j < lines_from(t, i).len() implies trim(
                #[trigger] lines_from(s, i)[j],
            ) == trim(lines_from(t, i)[j]) by {
                if j > 0 {
                    assert(lines_from(s, i)[j] == s2[j - 1]);
                    assert(lines_from(t, i)[j] == l2[j - 1]);
                }
            }
        } else {
            let u = t.subrange(i, t.len() as int);
            assert(s.subrange(i, t.len() as int) =~= u);
            lemma_trim_strip_cr(u);
            assert(lines_from(t, i) == seq![u]);
            assert(lines_from(s, i) == seq![strip_cr(u)] + lines(x));
            assert(lines_from(s, i).skip(1) =~= lines(x));
        }
    }
}

proof fn lemma_scores_agree(a: Seq<Seq<char>>, b: Seq<Seq<char>>, n: int)
    requires
        0 <= n,
        forall|k: int| 0 <= k < n ==> #[trigger] prepared(a, k) == prepared(b, k),
    ensures
        scores_upto(a, n) == scores_upto(b, n),
    decreases n,
{
    if n > 0 {
        lemma_scores_agree(a, b, n - 1);
        assert(prepared(a, n - 1) == prepared(b, n - 1));
    }
}

proof fn lemma_scores_zero_tail(ls: Seq<Seq<char>>, m: int, n: int)
    requires
        0 <= m <= n,
        forall|k: int| m <= k < n ==> blank_or_comment(#[trigger] prepared(ls, k)),
    ensures
        scores_upto(ls, n) == scores_upto(ls, m),
    decreases n,
{
    if n > m {
        lemma_scores_zero_tail(ls, m, n - 1);
        assert(blank_or_comment(prepared(ls, n - 1)));
    }
}

/// Appending blank lines and whole-line comments to a text never changes
/// the format detected in it.
pub proof fn law_blank_and_comment_lines_keep_format(t: Seq<char>, x: Seq<char>)
    requires
        forall|j: int| 0 <= j < lines(x).len() ==> blank_or_comment(trim(#[trigger] lines(x)[j])),
    ensures
        detect_spec(t + seq!['\n'] + x) == detect_spec(t),
{
    let s = t + seq!['\n'] + x;
    let lt = lines(t);
    let ls = lines(s);
    let m = lt.len() as int;
    lemma_lines_append(t, x, 0);
    assert forall|k: int| 0 <= k < m implies #[trigger] prepared(ls, k) == prepared(lt, k) by {
        assert(trim(ls[k]) == trim(lt[k]));
    }
    lemma_scores_agree(ls, lt, m);
    assert forall|k: int| m <= k < ls.len() implies blank_or_comment(#[trigger] prepared(ls, k)) by {
        let tail = ls.skip(m);
        assert(ls[k] == tail[k - m]);
        let e = Seq::<char>::empty();
        assert(trim(e) =~= e);
        assert(trim_start_char(e, '\u{feff}') == e);
        if m == 0 {
            assert(ls == seq![e] + lines(x));
        }
        if tail == lines(x) {
            if k == 0 {
                assert(ls[0] == e);
            } else {
                assert(blank_or_comment(trim(lines(x)[k - m])));
            }
        } else {
            assert(tail == seq![e] + lines(x));
            if k == m {
                assert(ls[k] == e);
            } else {
                assert(tail[k - m] == lines(x)[k - m - 1]);
                assert(blank_or_comment(trim(lines(x)[k - m - 1])));
            }
        }
    }
    lemma_scores_zero_tail(ls, m, ls.len() as int);
}

} // verus!

verus! {

/// A line whose first non-blank character is `c`, which is no whitespace
/// and no comment opener, is non-empty and no whole-line comment.
proof fn lemma_not_comment_by_first(l: Seq<char>, c: char)
    requires
        trim_start(l).len() > 0,
        trim_start(l)[0] == c,
        !crate::text::is_ws(c),
        c != '#' && c != '!' && c != ';' && c != '/',
    ensures
        l.len() > 0,
        !is_comment_spec(l),
{
    crate::text::lemma_next_non_ws(l, 0);
    let n = crate::text::next_non_ws(l, 0);
    assert(trim_start(l)[0] == l[n]);
    if n > 0 {
        assert(crate::text::is_ws(l[0]));
    }
}

/// An RPZ row names its owner: on a line that is no comment and no Unbound
/// row, whose tokens hold, after the owner, a first `CNAME` (in any case)
/// followed by `.`, the line blocks exactly the normalised owner (trailing
/// dots and one leading `*.` dropped), whatever tokens (TTL, class) stand
/// between the owner and `CNAME`.
pub proof fn law_rpz_cname_row_blocks_owner(l: Seq<char>, k: int, d: Seq<char>)
    requires
        !is_comment_spec(l),
        !starts_with(trim_start(l), "local-zone:"@),
        !starts_with(trim_start(l), "local-data:"@),
        1 <= k,
        k + 1 < tokens_spec(l).len(),
        eq_ignore_case(tokens_spec(l)[k], "CNAME"@),
        forall|j: int| 1 <= j < k ==> !eq_ignore_case(#[trigger] tokens_spec(l)[j], "CNAME"@),
        tokens_spec(l)[k + 1] == "."@,
        rpz_owner(tokens_spec(l)[0]) != "@"@,
        !(rpz_owner(tokens_spec(l)[0]).len() > 0 && rpz_owner(tokens_spec(l)[0])[0] == '$'),
        normalize_spec(rpz_owner(tokens_spec(l)[0])) == Some(d),
    ensures
        line_blocks(l) == seq![d],
        line_allows(l).len() == 0,
{
    let toks = tokens_spec(l);
    lemma_find_cname_first(toks, 1, k);
    if l.len() == 0 {
        assert(words(l) =~= Seq::<Seq<char>>::empty());
    }
    assert(unbound_spec(l) is None);
    assert(rpz_spec(l) == Some(d));
}

proof fn lemma_find_cname_first(toks: Seq<Seq<char>>, j: int, k: int)
    requires
        1 <= j <= k < toks.len(),
        eq_ignore_case(toks[k], "CNAME"@),
        forall|m: int| j <= m < k ==> !eq_ignore_case(#[trigger] toks[m], "CNAME"@),
    ensures
        find_cname(toks, j) == k,
    decreases k - j,
{
    if j < k {
        assert(!eq_ignore_case(toks[j], "CNAME"@));
        lemma_find_cname_first(toks, j + 1, k);
    }
}

/// Putting TTL and class tokens (anything but `CNAME`) between the owner
/// and `CNAME` of an RPZ row does not change what it blocks.
pub proof fn law_rpz_ttl_and_class_do_not_matter(
    l1: Seq<char>,
    l2: Seq<char>,
    mid: Seq<Seq<char>>,
    d: Seq<char>,
)
    requires
        !is_comment_spec(l1),
        !is_comment_spec(l2),
        !starts_with(trim_start(l1), "local-zone:"@),
        !starts_with(trim_start(l1), "local-data:"@),
        !starts_with(trim_start(l2), "local-zone:"@),
        !starts_with(trim_start(l2), "local-data:"@),
        tokens_spec(l1).len() >= 3,
        eq_ignore_case(tokens_spec(l1)[1], "CNAME"@),
        tokens_spec(l1)[2] == "."@,
        tokens_spec(l2) == seq![tokens_spec(l1)[0]] + mid + tokens_spec(l1).skip(1),
        forall|j: int| 0 <= j < mid.len() ==> !eq_ignore_case(#[trigger] mid[j], "CNAME"@),
        rpz_owner(tokens_spec(l1)[0]) != "@"@,
        !(rpz_owner(tokens_spec(l1)[0]).len() > 0 && rpz_owner(tokens_spec(l1)[0])[0] == '$'),
        normalize_spec(rpz_owner(tokens_spec(l1)[0])) == Some(d),
    ensures
        line_blocks(l1) == seq![d],
        line_blocks(l2) == line_blocks(l1),
{
    let t1 = tokens_spec(l1);
    let t2 = tokens_spec(l2);
    let k: int = 1 + mid.len() as int;
    law_rpz_cname_row_blocks_owner(l1, 1, d);
    assert(t2[0] == t1[0]);
    assert(t2[k] == t1[1]);
    assert(t2[k + 1] == t1[2]);
    assert forall|j: int| 1 <= j < k implies !eq_ignore_case(#[trigger] t2[j], "CNAME"@) by {
        assert(t2[j] == mid[j - 1]);
    }
    law_rpz_cname_row_blocks_owner(l2, k, d);
}

/// An `@@` allow marker does not change whether a line looks like an
/// Adblock rule: `@@r` scores as `r` does (for `r` not itself starting
/// with `@@`).
pub proof fn law_allow_marker_keeps_adblock_look(r: Seq<char>)
    requires
        !starts_with(r, "@@"@),
    ensures
        looks_like_adblock(seq!['@', '@'] + r) == looks_like_adblock(r),
{
    reveal_strlit("@@");
    let l = seq!['@', '@'] + r;
    assert(l.take(2) =~= "@@"@);
    assert(l.skip(2) =~= r);
}

/// A line of one word, without whitespace, is its own only token unless it
/// opens an inline comment.
proof fn lemma_single_token(l: Seq<char>)
    requires
        l.len() > 0,
        forall|k: int| 0 <= k < l.len() ==> !crate::text::is_ws(#[trigger] l[k]),
        !is_inline_comment_token_spec(l),
    ensures
        tokens_spec(l) == seq![l],
        trim_start(l) == l,
{
    crate::text::lemma_next_ws(l, 0);
    assert(crate::text::next_non_ws(l, 0) == 0);
    let b = crate::text::next_ws(l, 0);
    assert(b == l.len());
    assert(crate::text::words_from(l, l.len() as int) =~= Seq::<Seq<char>>::empty());
    assert(l.subrange(0, l.len() as int) =~= l);
    assert(words(l) =~= seq![l]);
    assert(comment_cut(words(l), 1) == 1);
    assert(comment_cut(words(l), 0) == 1);
    assert(words(l).take(1) =~= seq![l]);
    assert(l.skip(0) =~= l);
}

/// An AdGuard allow rule `@@||...` written as one word scores as Adblock
/// (3) and neither as Unbound nor as RPZ.
proof fn lemma_allow_rule_scores(l: Seq<char>)
    requires
        starts_with(l, "@@||"@),
        forall|k: int| 0 <= k < l.len() ==> !crate::text::is_ws(#[trigger] l[k]),
    ensures
        line_scores(l).0 == 0,
        line_scores(l).1 == 0,
        line_scores(l).2 == 3,
        0 <= line_scores(l).3 <= 1,
{
    reveal_strlit("@@||");
    reveal_strlit("@@");
    reveal_strlit("||");
    reveal_strlit("server:");
    reveal_strlit("local-zone:");
    reveal_strlit("local-data:");
    assert(l.len() >= 4);
    let p4 = l.take(4);
    assert(p4 == "@@||"@);
    assert(p4[0] == l[0] && p4[1] == l[1] && p4[2] == l[2] && p4[3] == l[3]);
    assert("@@||"@[0] == '@' && "@@||"@[1] == '@' && "@@||"@[2] == '|' && "@@||"@[3] == '|');
    assert(l[0] == '@' && l[1] == '@' && l[2] == '|' && l[3] == '|');
    lemma_single_token(l);
    assert(l.take(2) =~= "@@"@);
    assert(l.skip(2).take(2) =~= "||"@);
    assert(!starts_with(l, "local-zone:"@));
    assert(!starts_with(l, "local-data:"@));
    assert(l != "server:"@);
    assert(!is_comment_spec(l));
}

proof fn lemma_allow_list_scores(ls: Seq<Seq<char>>, n: int)
    requires
        0 <= n <= ls.len(),
        forall|k: int|
            0 <= k < ls.len() ==> starts_with(#[trigger] prepared(ls, k), "@@||"@) && forall|m: int|
                0 <= m < prepared(ls, k).len() ==> !crate::text::is_ws(#[trigger] prepared(ls, k)[m]),
    ensures
        scores_upto(ls, n).0 == 0,
        scores_upto(ls, n).1 == 0,
        scores_upto(ls, n).2 == 3 * n,
        scores_upto(ls, n).3 <= n,
    decreases n,
{
    if n > 0 {
        lemma_allow_list_scores(ls, n - 1);
        lemma_allow_rule_scores(prepared(ls, n - 1));
    }
}

/// A list made only of AdGuard allow rules `@@||...`, one word per line,
/// is detected as Adblock.
pub proof fn law_allow_list_detected_as_adblock(text: Seq<char>)
    requires
        lines(text).len() > 0,
        forall|k: int|
            0 <= k < lines(text).len() ==> starts_with(#[trigger] prepared(lines(text), k), "@@||"@)
                && forall|m: int|
                0 <= m < prepared(lines(text), k).len() ==> !crate::text::is_ws(
                    #[trigger] prepared(lines(text), k)[m],
                ),
    ensures
        detect_spec(text) == SourceFormat::Adblock,
{
    let ls = lines(text);
    lemma_allow_list_scores(ls, ls.len() as int);
}

/// An Unbound `local-zone:` row with an unquoted zone blocks that zone,
/// normalised.
pub proof fn law_unbound_unquoted_zone(l: Seq<char>, d: Seq<char>)
    requires
        starts_with(trim_start(l), "local-zone:"@),
        trim(trim_start(l).skip("local-zone:"@.len() as int)).len() > 0,
        trim(trim_start(l).skip("local-zone:"@.len() as int))[0] != '"',
        words(trim(trim_start(l).skip("local-zone:"@.len() as int))).len() > 0,
        normalize_spec(words(trim(trim_start(l).skip("local-zone:"@.len() as int)))[0]) == Some(d),
    ensures
        line_blocks(l) == seq![d],
        line_allows(l).len() == 0,
{
    reveal_strlit("local-zone:");
    let t = trim_start(l);
    assert(t.take(11) == "local-zone:"@);
    assert(t.take(11)[0] == t[0]);
    assert("local-zone:"@[0] == 'l');
    assert(trim_start(l)[0] == 'l');
    lemma_not_comment_by_first(l, 'l');
}

/// An Unbound `local-zone:` row with a quoted zone `"q"` blocks `q`,
/// trimmed and normalised.
pub proof fn law_unbound_quoted_zone(l: Seq<char>, q: Seq<char>, r: Seq<char>, d: Seq<char>)
    requires
        starts_with(trim_start(l), "local-zone:"@),
        trim(trim_start(l).skip("local-zone:"@.len() as int)) == seq!['"'] + q + seq!['"'] + r,
        !q.contains('"'),
        normalize_spec(trim(q)) == Some(d),
    ensures
        line_blocks(l) == seq![d],
        line_allows(l).len() == 0,
{
    reveal_strlit("local-zone:");
    let t = trim_start(l);
    assert(t.take(11) == "local-zone:"@);
    assert(t.take(11)[0] == t[0]);
    assert("local-zone:"@[0] == 'l');
    assert(trim_start(l)[0] == 'l');
    lemma_not_comment_by_first(l, 'l');
    let u = seq!['"'] + q + seq!['"'] + r;
    let rest = u.drop_first();
    assert(rest =~= q + (seq!['"'] + r));
    crate::text::lemma_find_char_prefix(q, seq!['"'] + r, '"', 0);
    lemma_find_char(q, '"', 0);
    if find_char(q, '"', 0) < q.len() {
        assert(q[find_char(q, '"', 0)] == '"');
    }
    assert(rest[q.len() as int] == '"');
    assert(find_char(rest, '"', q.len() as int) == q.len());
    assert(rest.take(q.len() as int) =~= q);
}

/// Quoting the zone of an Unbound `local-zone:` row or not makes no
/// difference to what it blocks.
pub proof fn law_unbound_zone_quoting_is_irrelevant(
    l1: Seq<char>,
    l2: Seq<char>,
    q: Seq<char>,
    r: Seq<char>,
    d: Seq<char>,
)
    requires
        starts_with(trim_start(l1), "local-zone:"@),
        trim(trim_start(l1).skip("local-zone:"@.len() as int)).len() > 0,
        trim(trim_start(l1).skip("local-zone:"@.len() as int))[0] != '"',
        words(trim(trim_start(l1).skip("local-zone:"@.len() as int))).len() > 0,
        starts_with(trim_start(l2), "local-zone:"@),
        trim(trim_start(l2).skip("local-zone:"@.len() as int)) == seq!['"'] + q + seq!['"'] + r,
        !q.contains('"'),
        trim(q) == words(trim(trim_start(l1).skip("local-zone:"@.len() as int)))[0],
        normalize_spec(trim(q)) == Some(d),
    ensures
        line_blocks(l1) == seq![d],
        line_blocks(l2) == line_blocks(l1),
{
    law_unbound_unquoted_zone(l1, d);
    law_unbound_quoted_zone(l2, q, r, d);
}

/// What a line blocks ends up among the blocks of the text it belongs to.
#[verifier::rlimit(40)]
pub proof fn law_line_blocks_reach_the_parse(ls: Seq<Seq<char>>, n: int, i: int, d: Seq<char>)
    requires
        0 <= i < n,
        line_blocks(prepared(ls, i)).contains(d),
    ensures
        blocks_upto(ls, n).contains(d),
    decreases n,
{
    if i < n - 1 {
        law_line_blocks_reach_the_parse(ls, n - 1, i, d);
        let b = blocks_upto(ls, n - 1);
        let j = choose|j: int| 0 <= j < b.len() && b[j] == d;
        assert(blocks_upto(ls, n)[j] == d);
    } else {
        let b = blocks_upto(ls, n - 1);
        let lb = line_blocks(prepared(ls, i));
        let j = choose|j: int| 0 <= j < lb.len() && lb[j] == d;
        assert(blocks_upto(ls, n)[b.len() + j] == d);
    }
}

} // verus!

verus! {

/// A token equal to `CNAME` up to case is a DNS record type.
proof fn lemma_cname_is_dns_word(t: Seq<char>)
    requires
        eq_ignore_case(t, "CNAME"@),
    ensures
        is_dns_word(t),
{
    reveal_strlit("CNAME");
    reveal_strlit("cname");
    assert(lower("CNAME"@) =~= "cname"@);
}

proof fn lemma_no_char_no_seq(c: Seq<char>, p: Seq<char>, ch: char)
    requires
        !c.contains(ch),
        p.len() > 0,
        p[0] == ch,
    ensures
        !contains_seq(c, p),
{
    if contains_seq(c, p) {
        let i = choose|i: int| 0 <= i && i + p.len() <= c.len() && #[trigger] c.subrange(i, i + p.len()) == p;
        assert(c.subrange(i, i + p.len())[0] == c[i]);
    }
}

proof fn lemma_find_boundary_at(s: Seq<char>, i: int, k: int)
    requires
        0 <= i <= k < s.len(),
        forall|m: int| i <= m < k ==> !is_boundary(#[trigger] s[m]),
        is_boundary(s[k]),
    ensures
        find_boundary(s, i) == k,
    decreases k - i,
{
    if i < k {
        lemma_find_boundary_at(s, i + 1, k);
    }
}

/// A line that is one plain domain name (one word, no IP address, no
/// Unbound row) blocks that name, normalised.
pub proof fn law_plain_domain_line(l: Seq<char>, d: Seq<char>)
    requires
        l.len() > 0,
        forall|k: int| 0 <= k < l.len() ==> !crate::text::is_ws(#[trigger] l[k]),
        !is_comment_spec(l),
        !starts_with(l, "local-zone:"@),
        !starts_with(l, "local-data:"@),
        !is_ip_literal(l),
        normalize_spec(l) == Some(d),
    ensures
        line_blocks(l) == seq![d],
        line_allows(l).len() == 0,
{
    lemma_single_token(l);
}

/// A hosts row (an IP address, then names, no DNS class or record type
/// among them) blocks every one of its names that normalises.
pub proof fn law_hosts_row_blocks_every_name(l: Seq<char>, j: int, d: Seq<char>)
    requires
        !is_comment_spec(l),
        !starts_with(trim_start(l), "local-zone:"@),
        !starts_with(trim_start(l), "local-data:"@),
        tokens_spec(l).len() > 0,
        is_ip_literal(tokens_spec(l)[0]),
        forall|m: int| 1 <= m < tokens_spec(l).len() ==> !is_dns_word(#[trigger] tokens_spec(l)[m]),
        1 <= j < tokens_spec(l).len(),
        normalize_spec(tokens_spec(l)[j]) == Some(d),
    ensures
        line_blocks(l).contains(d),
        line_allows(l).len() == 0,
{
    let toks = tokens_spec(l);
    if l.len() == 0 {
        assert(words(l) =~= Seq::<Seq<char>>::empty());
    }
    assert forall|m: int| 1 <= m < toks.len() implies !eq_ignore_case(#[trigger] toks[m], "CNAME"@) by {
        if eq_ignore_case(toks[m], "CNAME"@) {
            lemma_cname_is_dns_word(toks[m]);
        }
    }
    if find_cname(toks, 1) < toks.len() {
        lemma_find_cname_at_most(toks, 1);
        assert(eq_ignore_case(toks[find_cname(toks, 1)], "CNAME"@));
    }
    assert(!looks_like_dns_record_line_spec(toks));
    lemma_normalize_all_has(toks.skip(1), j - 1, d);
    assert(toks.skip(1)[j - 1] == toks[j]);
}

proof fn lemma_find_cname_at_most(toks: Seq<Seq<char>>, k: int)
    requires
        1 <= k <= toks.len(),
    ensures
        k <= find_cname(toks, k) <= toks.len(),
        find_cname(toks, k) < toks.len() ==> eq_ignore_case(toks[find_cname(toks, k)], "CNAME"@),
    decreases toks.len() - k,
{
    if k < toks.len() && !eq_ignore_case(toks[k], "CNAME"@) {
        lemma_find_cname_at_most(toks, k + 1);
    }
}

proof fn lemma_normalize_all_has(toks: Seq<Seq<char>>, j: int, d: Seq<char>)
    requires
        0 <= j < toks.len(),
        normalize_spec(toks[j]) == Some(d),
    ensures
        normalize_all(toks).contains(d),
    decreases toks.len(),
{
    let init = toks.drop_last();
    if j < toks.len() - 1 {
        assert(init[j] == toks[j]);
        lemma_normalize_all_has(init, j, d);
        let a = normalize_all(init);
        let i = choose|i: int| 0 <= i < a.len() && a[i] == d;
        assert(normalize_all(toks)[i] == d);
    } else {
        let a = normalize_all(init);
        assert(normalize_all(toks)[a.len() as int] == d);
    }
}

/// The characters of an anchored rule `||x^`.
proof fn lemma_anchor_rule_chars(x: Seq<char>)
    requires
        forall|k: int|
            0 <= k < x.len() ==> !crate::text::is_ws(#[trigger] x[k]) && !is_boundary(x[k]) && x[k]
                != '$' && x[k] != '*',
    ensures
        ({
            let c = seq!['|', '|'] + x + seq!['^'];
            &&& forall|k: int| 0 <= k < c.len() ==> !crate::text::is_ws(#[trigger] c[k])
            &&& !c.contains('$')
            &&& !c.contains('*')
            &&& !c.contains('#')
            &&& c[0] == '|'
            &&& c[1] == '|'
        }),
{
    let c = seq!['|', '|'] + x + seq!['^'];
    assert forall|k: int| 0 <= k < c.len() implies !crate::text::is_ws(#[trigger] c[k]) && c[k] != '$'
        && c[k] != '*' && c[k] != '#' by {
        if 2 <= k < c.len() - 1 {
            assert(c[k] == x[k - 2]);
        }
    }
}

/// The rule `||x^` filters to the normalised `x`.
proof fn lemma_anchor_rule_filter(x: Seq<char>, d: Seq<char>)
    requires
        forall|k: int|
            0 <= k < x.len() ==> !crate::text::is_ws(#[trigger] x[k]) && !is_boundary(x[k]) && x[k]
                != '$' && x[k] != '*',
        normalize_spec(x) == Some(d),
    ensures
        filter_spec(seq!['|', '|'] + x + seq!['^']) == Some(d),
        trim(seq!['|', '|'] + x + seq!['^']) == seq!['|', '|'] + x + seq!['^'],
{
    let c = seq!['|', '|'] + x + seq!['^'];
    lemma_anchor_rule_chars(x);
    assert(find_char(c, '$', 0) == c.len()) by {
        lemma_find_char(c, '$', 0);
        if find_char(c, '$', 0) < c.len() {
            assert(c.contains('$'));
        }
    }
    assert(c.take(c.len() as int) =~= c);
    crate::text::lemma_trim_unpadded(c);
    assert(!contains_seq(c, "##"@) && !contains_seq(c, "#@#"@) && !contains_seq(c, "#?#"@)
        && !contains_seq(c, "#$#"@)) by {
        reveal_strlit("##");
        reveal_strlit("#@#");
        reveal_strlit("#?#");
        reveal_strlit("#$#");
        lemma_no_char_no_seq(c, "##"@, '#');
        lemma_no_char_no_seq(c, "#@#"@, '#');
        lemma_no_char_no_seq(c, "#?#"@, '#');
        lemma_no_char_no_seq(c, "#$#"@, '#');
    }
    assert(starts_with(c, "||"@)) by {
        reveal_strlit("||");
        assert(c.take(2) =~= "||"@);
    }
    let rest = c.skip(2);
    assert(until_boundary_spec(rest) == Some(d)) by {
        assert(rest =~= x + seq!['^']);
        assert forall|m: int| 0 <= m < x.len() implies !is_boundary(#[trigger] rest[m]) by {
            assert(rest[m] == x[m]);
        }
        lemma_find_boundary_at(rest, 0, x.len() as int);
        assert(rest.take(x.len() as int) =~= x);
    }
    assert(filter_spec(c) == until_boundary_spec(rest));
}

/// An Adblock rule `||x^` for an exact domain blocks that domain (when the
/// rule is no plain name or hosts row itself).
pub proof fn law_adblock_anchor_rule_blocks(x: Seq<char>, d: Seq<char>)
    requires
        forall|k: int|
            0 <= k < x.len() ==> !crate::text::is_ws(#[trigger] x[k]) && !is_boundary(x[k]) && x[k]
                != '$' && x[k] != '*',
        normalize_spec(x) == Some(d),
        !is_ip_literal(seq!['|', '|'] + x + seq!['^']),
        normalize_spec(seq!['|', '|'] + x + seq!['^']) is None,
    ensures
        line_blocks(seq!['|', '|'] + x + seq!['^']) == seq![d],
        line_allows(seq!['|', '|'] + x + seq!['^']).len() == 0,
{
    reveal_strlit("@@");
    reveal_strlit("local-zone:");
    reveal_strlit("local-data:");
    let l = seq!['|', '|'] + x + seq!['^'];
    lemma_anchor_rule_filter(x, d);
    lemma_anchor_rule_chars(x);
    lemma_single_token(l);
    assert(l[0] == '|');
    assert(!starts_with(l, "@@"@)) by {
        if starts_with(l, "@@"@) {
            assert(l.take(2)[0] == l[0]);
        }
    }
    assert(!starts_with(l, "local-zone:"@)) by {
        if starts_with(l, "local-zone:"@) {
            assert(l.take(11)[0] == l[0]);
        }
    }
    assert(!starts_with(l, "local-data:"@)) by {
        if starts_with(l, "local-data:"@) {
            assert(l.take(11)[0] == l[0]);
        }
    }
}

/// An AdGuard allow rule `@@||x^` for an exact domain allows that domain
/// and blocks nothing (when the rule is no plain name or hosts row itself).
pub proof fn law_adblock_allow_rule_allows(x: Seq<char>, d: Seq<char>)
    requires
        forall|k: int|
            0 <= k < x.len() ==> !crate::text::is_ws(#[trigger] x[k]) && !is_boundary(x[k]) && x[k]
                != '$' && x[k] != '*',
        normalize_spec(x) == Some(d),
        !is_ip_literal(seq!['@', '@'] + (seq!['|', '|'] + x + seq!['^'])),
        normalize_spec(seq!['@', '@'] + (seq!['|', '|'] + x + seq!['^'])) is None,
    ensures
        line_allows(seq!['@', '@'] + (seq!['|', '|'] + x + seq!['^'])) == seq![d],
        line_blocks(seq!['@', '@'] + (seq!['|', '|'] + x + seq!['^'])).len() == 0,
{
    reveal_strlit("@@");
    reveal_strlit("local-zone:");
    reveal_strlit("local-data:");
    let c = seq!['|', '|'] + x + seq!['^'];
    let l = seq!['@', '@'] + c;
    lemma_anchor_rule_filter(x, d);
    lemma_anchor_rule_chars(x);
    assert forall|k: int| 0 <= k < l.len() implies !crate::text::is_ws(#[trigger] l[k]) by {
        if k >= 2 {
            assert(l[k] == c[k - 2]);
        }
    }
    lemma_single_token(l);
    assert(l[0] == '@');
    assert(l.take(2) =~= "@@"@);
    assert(l.skip(2) =~= c);
    assert(!starts_with(l, "local-zone:"@)) by {
        if starts_with(l, "local-zone:"@) {
            assert(l.take(11)[0] == l[0]);
        }
    }
    assert(!starts_with(l, "local-data:"@)) by {
        if starts_with(l, "local-data:"@) {
            assert(l.take(11)[0] == l[0]);
        }
    }
}

} // verus!

verus! {

/// A row `name address` (the name before an IP address, no DNS class or
/// record type among the tokens) blocks the name, normalised.
pub proof fn law_hosts_name_before_address(l: Seq<char>, d: Seq<char>)
    requires
        !is_comment_spec(l),
        !starts_with(trim_start(l), "local-zone:"@),
        !starts_with(trim_start(l), "local-data:"@),
        tokens_spec(l).len() >= 2,
        !is_ip_literal(tokens_spec(l)[0]),
        is_ip_literal(tokens_spec(l)[1]),
        forall|m: int| 1 <= m < tokens_spec(l).len() ==> !is_dns_word(#[trigger] tokens_spec(l)[m]),
        normalize_spec(tokens_spec(l)[0]) == Some(d),
    ensures
        line_blocks(l) == seq![d],
        line_allows(l).len() == 0,
{
    let toks = tokens_spec(l);
    if l.len() == 0 {
        assert(words(l) =~= Seq::<Seq<char>>::empty());
    }
    assert forall|m: int| 1 <= m < toks.len() implies !eq_ignore_case(#[trigger] toks[m], "CNAME"@) by {
        if eq_ignore_case(toks[m], "CNAME"@) {
            lemma_cname_is_dns_word(toks[m]);
        }
    }
    if find_cname(toks, 1) < toks.len() {
        lemma_find_cname_at_most(toks, 1);
        assert(eq_ignore_case(toks[find_cname(toks, 1)], "CNAME"@));
    }
    assert(!looks_like_dns_record_line_spec(toks));
}

/// The detected format is one with the highest score; among those with
/// the highest score, hosts wins over Adblock, Adblock over RPZ, and RPZ
/// over Unbound.
pub proof fn law_detection_tie_order(u: int, r: int, a: int, h: int)
    ensures
        h >= u && h >= r && h >= a <==> pick_format(u, r, a, h) == SourceFormat::Hostfile,
        a > h && a >= r && a >= u <==> pick_format(u, r, a, h) == SourceFormat::Adblock,
        r > h && r > a && r >= u <==> pick_format(u, r, a, h) == SourceFormat::Rpz,
        u > h && u > a && u > r <==> pick_format(u, r, a, h) == SourceFormat::Unbound,
{
}

} // verus!

verus! {

/// An Unbound `local-data:` row `"name type data"` blocks its record's
/// name, normalised.
pub proof fn law_unbound_local_data_blocks_name(l: Seq<char>, q: Seq<char>, r: Seq<char>, d: Seq<char>)
    requires
        starts_with(trim_start(l), "local-data:"@),
        trim(trim_start(l).skip("local-data:"@.len() as int)) == seq!['"'] + q + seq!['"'] + r,
        !q.contains('"'),
        words(trim(q)).len() > 0,
        normalize_spec(words(trim(q))[0]) == Some(d),
    ensures
        line_blocks(l) == seq![d],
        line_allows(l).len() == 0,
{
    reveal_strlit("local-data:");
    reveal_strlit("local-zone:");
    let t = trim_start(l);
    assert(t.take(11) == "local-data:"@);
    assert(t.take(11)[0] == t[0]);
    assert(t.take(11)[6] == t[6]);
    assert("local-data:"@[0] == 'l');
    lemma_not_comment_by_first(l, 'l');
    assert(!starts_with(t, "local-zone:"@)) by {
        if starts_with(t, "local-zone:"@) {
            assert(t.take(11)[6] == t[6]);
        }
    }
    let u = seq!['"'] + q + seq!['"'] + r;
    let rest = u.drop_first();
    assert(rest =~= q + (seq!['"'] + r));
    crate::text::lemma_find_char_prefix(q, seq!['"'] + r, '"', 0);
    lemma_find_char(q, '"', 0);
    if find_char(q, '"', 0) < q.len() {
        assert(q[find_char(q, '"', 0)] == '"');
    }
    assert(rest[q.len() as int] == '"');
    assert(find_char(rest, '"', q.len() as int) == q.len());
    assert(rest.take(q.len() as int) =~= q);
}

} // verus!
