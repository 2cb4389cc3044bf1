//! Character-level text primitives, stated over `Seq<char>`.
//!
//! Whitespace is the Unicode `White_Space` property, the set that
//! `char::is_whitespace` and `str::trim` use.

use vstd::prelude::*;
use vstd::string::StrSliceExecFns;

verus! {

/// The Unicode `White_Space` property.
pub open spec fn is_ws(c: char) -> bool {
    let u = c as u32;
    ||| 0x09 <= u <= 0x0d
    ||| u == 0x20
    ||| u == 0x85
    ||| u == 0xa0
    ||| u == 0x1680
    ||| 0x2000 <= u <= 0x200a
    ||| u == 0x2028
    ||| u == 0x2029
    ||| u == 0x202f
    ||| u == 0x205f
    ||| u == 0x3000
}

pub fn is_whitespace(c: char) -> (r: bool)
    ensures
        r == is_ws(c),
{
    let u = c as u32;
    (0x09 <= u && u <= 0x0d) || u == 0x20 || u == 0x85 || u == 0xa0 || u == 0x1680 || (0x2000 <= u
        && u <= 0x200a) || u == 0x2028 || u == 0x2029 || u == 0x202f || u == 0x205f || u == 0x3000
}

/// First index at or after `i` that holds no whitespace (or the length).
pub open spec fn next_non_ws(s: Seq<char>, i: int) -> int
    decreases s.len() - i,
{
    if 0 <= i < s.len() && is_ws(s[i]) {
        next_non_ws(s, i + 1)
    } else {
        i
    }
}

/// First index at or after `i` that holds whitespace (or the length).
pub open spec fn next_ws(s: Seq<char>, i: int) -> int
    decreases s.len() - i,
{
    if 0 <= i < s.len() && !is_ws(s[i]) {
        next_ws(s, i + 1)
    } else {
        i
    }
}

/// End of `s.take(j)` once trailing whitespace is dropped.
pub open spec fn prev_non_ws(s: Seq<char>, j: int) -> int
    decreases j,
{
    if 0 < j <= s.len() && is_ws(s[j - 1]) {
        prev_non_ws(s, j - 1)
    } else {
        j
    }
}

pub open spec fn trim_start(s: Seq<char>) -> Seq<char> {
    s.skip(next_non_ws(s, 0))
}

pub open spec fn trim_end(s: Seq<char>) -> Seq<char> {
    s.take(prev_non_ws(s, s.len() as int))
}

/// `str::trim`: leading and trailing whitespace removed.
pub open spec fn trim(s: Seq<char>) -> Seq<char> {
    trim_end(trim_start(s))
}

pub proof fn lemma_next_non_ws(s: Seq<char>, i: int)
    requires
        0 <= i <= s.len(),
    ensures
        i <= next_non_ws(s, i) <= s.len(),
        forall|k: int| i <= k < next_non_ws(s, i) ==> is_ws(#[trigger] s[k]),
        next_non_ws(s, i) < s.len() ==> !is_ws(s[next_non_ws(s, i)]),
    decreases s.len() - i,
{
    if i < s.len() && is_ws(s[i]) {
        lemma_next_non_ws(s, i + 1);
    }
}

pub proof fn lemma_next_ws(s: Seq<char>, i: int)
    requires
        0 <= i <= s.len(),
    ensures
        i <= next_ws(s, i) <= s.len(),
        forall|k: int| i <= k < next_ws(s, i) ==> !is_ws(#[trigger] s[k]),
        next_ws(s, i) < s.len() ==> is_ws(s[next_ws(s, i)]),
    decreases s.len() - i,
{
    if i < s.len() && !is_ws(s[i]) {
        lemma_next_ws(s, i + 1);
    }
}

/// A copy of `s[a..b]`.
pub fn copy_range(s: &[char], a: usize, b: usize) -> (r: Vec<char>)
    requires
        a <= b <= s@.len(),
    ensures
        r@ == s@.subrange(a as int, b as int),
{
    let mut r: Vec<char> = Vec::new();
    let mut i = a;
    while i < b
        invariant
            a <= i <= b <= s@.len(),
            r@ == s@.subrange(a as int, i as int),
        decreases b - i,
    {
        r.push(s[i]);
        i += 1;
        assert(r@ =~= s@.subrange(a as int, i as int));
    }
    r
}

/// Bounds of `trim(s)` inside `s`.
pub fn trim_bounds(s: &[char]) -> (r: (usize, usize))
    ensures
        r.0 <= r.1 <= s@.len(),
        s@.subrange(r.0 as int, r.1 as int) == trim(s@),
        r.0 as int == next_non_ws(s@, 0),
{
    let mut a: usize = 0;
    while a < s.len() && is_whitespace(s[a])
        invariant
            a <= s@.len(),
            next_non_ws(s@, a as int) == next_non_ws(s@, 0),
        decreases s@.len() - a,
    {
        a += 1;
    }
    proof {
        lemma_next_non_ws(s@, 0);
    }
    let ghost t = trim_start(s@);
    assert(t =~= s@.skip(a as int));
    let mut b: usize = s.len();
    while b > a && is_whitespace(s[b - 1])
        invariant
            a <= b <= s@.len(),
            t =~= s@.skip(a as int),
            prev_non_ws(t, (b - a) as int) == prev_non_ws(t, t.len() as int),
        decreases b,
    {
        assert(t[(b - a) - 1] == s@[b - 1]);
        b -= 1;
    }
    assert(s@.subrange(a as int, b as int) =~= t.take((b - a) as int));
    (a, b)
}

/// `str::trim`, as a fresh vector.
pub fn trim_chars(s: &[char]) -> (r: Vec<char>)
    ensures
        r@ == trim(s@),
{
    let (a, b) = trim_bounds(s);
    copy_range(s, a, b)
}

/// `str::trim_start`.
pub fn trim_start_chars(s: &[char]) -> (r: Vec<char>)
    ensures
        r@ == trim_start(s@),
{
    let (a, _) = trim_bounds(s);
    proof {
        lemma_next_non_ws(s@, 0);
    }
    let r = copy_range(s, a, s.len());
    assert(r@ =~= trim_start(s@));
    r
}

/// Index of the first `c` at or after `i` (or the length).
pub open spec fn find_char(s: Seq<char>, c: char, i: int) -> int
    decreases s.len() - i,
{
    if 0 <= i < s.len() && s[i] != c {
        find_char(s, c, i + 1)
    } else {
        i
    }
}

pub proof fn lemma_find_char(s: Seq<char>, c: char, i: int)
    requires
        0 <= i <= s.len(),
    ensures
        i <= find_char(s, c, i) <= s.len(),
        forall|k: int| i <= k < find_char(s, c, i) ==> #[trigger] s[k] != c,
        find_char(s, c, i) < s.len() ==> s[find_char(s, c, i)] == c,
    decreases s.len() - i,
{
    if i < s.len() && s[i] != c {
        lemma_find_char(s, c, i + 1);
    }
}

pub fn find_char_from(s: &[char], c: char, i: usize) -> (r: usize)
    requires
        i <= s@.len(),
    ensures
        r as int == find_char(s@, c, i as int),
        i <= r <= s@.len(),
{
    let mut k = i;
    while k < s.len() && s[k] != c
        invariant
            i <= k <= s@.len(),
            find_char(s@, c, k as int) == find_char(s@, c, i as int),
        decreases s@.len() - k,
    {
        k += 1;
    }
    k
}

/// `s` with one trailing carriage return removed.
pub open spec fn strip_cr(s: Seq<char>) -> Seq<char> {
    if s.len() > 0 && s.last() == '\r' {
        s.drop_last()
    } else {
        s
    }
}

/// `str::lines` from index `i` on: lines end at `\n` (a `\r` before it is
/// dropped); a last line without `\n` is kept as it is.
pub open spec fn lines_from(s: Seq<char>, i: int) -> Seq<Seq<char>>
    decreases s.len() - i,
{
    if i < 0 || i >= s.len() {
        seq![]
    } else {
        let k = find_char(s, '\n', i);
        if k >= s.len() || k < i {
            seq![s.subrange(i, s.len() as int)]
        } else {
            seq![strip_cr(s.subrange(i, k))] + lines_from(s, k + 1)
        }
    }
}

/// `str::lines`.
pub open spec fn lines(s: Seq<char>) -> Seq<Seq<char>> {
    lines_from(s, 0)
}

pub proof fn lemma_lines_from_len(s: Seq<char>, i: int)
    requires
        0 <= i <= s.len(),
    ensures
        lines_from(s, i).len() <= s.len() - i,
    decreases s.len() - i,
{
    if i < s.len() {
        lemma_find_char(s, '\n', i);
        let k = find_char(s, '\n', i);
        if k < s.len() {
            lemma_lines_from_len(s, k + 1);
        }
    }
}

/// The words of `s` from index `i` on: maximal runs without whitespace.
pub open spec fn words_from(s: Seq<char>, i: int) -> Seq<Seq<char>>
    decreases s.len() - i,
{
    if i < 0 || i > s.len() {
        seq![]
    } else {
        let a = next_non_ws(s, i);
        if a >= s.len() || a < i {
            seq![]
        } else {
            let b = next_ws(s, a);
            if b <= a || b > s.len() {
                seq![]
            } else {
                seq![s.subrange(a, b)] + words_from(s, b)
            }
        }
    }
}

/// `str::split_whitespace`.
pub open spec fn words(s: Seq<char>) -> Seq<Seq<char>> {
    words_from(s, 0)
}

/// `s` begins with `p`.
pub open spec fn starts_with(s: Seq<char>, p: Seq<char>) -> bool {
    p.len() <= s.len() && s.take(p.len() as int) == p
}

/// `s` ends with `p`.
pub open spec fn ends_with(s: Seq<char>, p: Seq<char>) -> bool {
    p.len() <= s.len() && s.skip(s.len() - p.len()) == p
}

/// `p` occurs in `s` as a contiguous run.
pub open spec fn contains_seq(s: Seq<char>, p: Seq<char>) -> bool {
    exists|i: int| 0 <= i && i + p.len() <= s.len() && #[trigger] s.subrange(i, i + p.len()) == p
}

pub fn starts_with_str(s: &[char], p: &str) -> (r: bool)
    ensures
        r == starts_with(s@, p@),
{
    let n = p.unicode_len();
    if n > s.len() {
        return false;
    }
    let mut i: usize = 0;
    while i < n
        invariant
            n == p@.len(),
            n <= s@.len(),
            i <= n,
            s@.take(i as int) == p@.take(i as int),
        decreases n - i,
    {
        if s[i] != p.get_char(i) {
            assert(s@.take(n as int)[i as int] != p@[i as int]);
            return false;
        }
        i += 1;
        assert(s@.take(i as int) =~= p@.take(i as int));
    }
    assert(p@.take(n as int) =~= p@);
    true
}

pub fn ends_with_str(s: &[char], p: &str) -> (r: bool)
    ensures
        r == ends_with(s@, p@),
{
    let n = p.unicode_len();
    if n > s.len() {
        return false;
    }
    let off = s.len() - n;
    let mut i: usize = 0;
    while i < n
        invariant
            n == p@.len(),
            n <= s@.len(),
            off == s@.len() - n,
            off + n == s.len(),
            i <= n,
            forall|k: int| 0 <= k < i ==> s@[off + k] == p@[k],
        decreases n - i,
    {
        if s[off + i] != p.get_char(i) {
            assert(s@.skip(off as int)[i as int] != p@[i as int]);
            return false;
        }
        i += 1;
    }
    assert(s@.skip(off as int) =~= p@);
    true
}

/// Whether `p` occurs in `s`.
pub fn contains_str(s: &[char], p: &str) -> (r: bool)
    ensures
        r == contains_seq(s@, p@),
{
    let n = p.unicode_len();
    if n > s.len() {
        assert forall|i: int| 0 <= i && i + p@.len() <= s@.len() implies #[trigger] s@.subrange(
            i,
            i + p@.len(),
        ) != p@ by {}
        return false;
    }
    if n == 0 {
        assert(s@.subrange(0int, 0int + p@.len()) =~= p@);
        return true;
    }
    let mut start: usize = 0;
    while start <= s.len() - n
        invariant
            n == p@.len(),
            0 < n <= s@.len(),
            start <= s.len() - n + 1,
            forall|i: int| 0 <= i < start ==> #[trigger] s@.subrange(i, i + n) != p@,
        decreases s@.len() - start,
    {
        let mut i: usize = 0;
        let mut same = true;
        while i < n
            invariant
                n == p@.len(),
                start + n <= s.len(),
                i <= n,
                same ==> forall|k: int| 0 <= k < i ==> s@[start + k] == p@[k],
                !same ==> s@.subrange(start as int, start + n) != p@,
            decreases n - i,
        {
            if s[start + i] != p.get_char(i) {
                if same {
                    assert(s@.subrange(start as int, start + n)[i as int] != p@[i as int]);
                }
                same = false;
            }
            i += 1;
        }
        if same {
            assert(s@.subrange(start as int, start + n) =~= p@);
            return true;
        }
        start += 1;
    }
    false
}

/// Whether `c` occurs in `s`.
pub fn contains_char(s: &[char], c: char) -> (r: bool)
    ensures
        r == s@.contains(c),
{
    let mut i: usize = 0;
    while i < s.len()
        invariant
            i <= s@.len(),
            forall|k: int| 0 <= k < i ==> s@[k] != c,
        decreases s@.len() - i,
    {
        if s[i] == c {
            assert(s@[i as int] == c);
            return true;
        }
        i += 1;
    }
    false
}

} // verus!

verus! {

/// The characters of `s`.
pub fn chars_of(s: &str) -> (r: Vec<char>)
    ensures
        r@ == s@,
{
    let mut r: Vec<char> = Vec::new();
    for c in it: s.chars()
        invariant
            r@ == it.seq().take(it.index() as int),
    {
        r.push(c);
    }
    r
}

} // verus!

verus! {

/// `char::to_ascii_lowercase`.
pub open spec fn lower_char(c: char) -> char {
    if 'A' <= c <= 'Z' {
        ((c as u32) + 32) as char
    } else {
        c
    }
}

pub fn to_lower_char(c: char) -> (r: char)
    ensures
        r == lower_char(c),
{
    if 'A' <= c && c <= 'Z' {
        let b = (c as u32 + 32) as u8;
        b as char
    } else {
        c
    }
}

} // verus!

verus! {

/// `s` with every ASCII capital letter lowered (`to_ascii_lowercase`).
pub open spec fn lower(s: Seq<char>) -> Seq<char> {
    s.map_values(|c: char| lower_char(c))
}

pub fn to_lower(s: &[char]) -> (r: Vec<char>)
    ensures
        r@ == lower(s@),
{
    let mut r: Vec<char> = Vec::new();
    let mut i: usize = 0;
    while i < s.len()
        invariant
            i <= s@.len(),
            r@ == lower(s@.take(i as int)),
        decreases s@.len() - i,
    {
        r.push(to_lower_char(s[i]));
        i += 1;
        assert(r@ =~= lower(s@.take(i as int)));
    }
    assert(s@.take(s@.len() as int) =~= s@);
    r
}

/// `s` with every trailing `c` removed (`trim_end_matches`).
pub open spec fn trim_end_char(s: Seq<char>, c: char) -> Seq<char>
    decreases s.len(),
{
    if s.len() > 0 && s.last() == c {
        trim_end_char(s.drop_last(), c)
    } else {
        s
    }
}

/// `s` with every leading `c` removed (`trim_start_matches`).
pub open spec fn trim_start_char(s: Seq<char>, c: char) -> Seq<char>
    decreases s.len(),
{
    if s.len() > 0 && s[0] == c {
        trim_start_char(s.drop_first(), c)
    } else {
        s
    }
}

pub fn trim_end_matches(s: &[char], c: char) -> (r: Vec<char>)
    ensures
        r@ == trim_end_char(s@, c),
{
    let mut j: usize = s.len();
    assert(s@.take(s@.len() as int) =~= s@);
    while j > 0 && s[j - 1] == c
        invariant
            j <= s@.len(),
            trim_end_char(s@.take(j as int), c) == trim_end_char(s@, c),
        decreases j,
    {
        assert(s@.take(j as int).drop_last() =~= s@.take(j - 1));
        j -= 1;
    }
    assert(s@.take(s@.len() as int) =~= s@);
    copy_range(s, 0, j)
}

pub fn trim_start_matches(s: &[char], c: char) -> (r: Vec<char>)
    ensures
        r@ == trim_start_char(s@, c),
{
    let mut i: usize = 0;
    assert(s@.skip(0) =~= s@);
    while i < s.len() && s[i] == c
        invariant
            i <= s@.len(),
            trim_start_char(s@.skip(i as int), c) == trim_start_char(s@, c),
        decreases s@.len() - i,
    {
        assert(s@.skip(i as int).drop_first() =~= s@.skip(i + 1));
        i += 1;
    }
    assert(s@.skip(0) =~= s@);
    let r = copy_range(s, i, s.len());
    assert(r@ =~= s@.skip(i as int));
    r
}

/// The pieces of `s` between occurrences of `c`, from index `i` on
/// (`str::split` with a character pattern).
pub open spec fn split_from(s: Seq<char>, c: char, i: int) -> Seq<Seq<char>>
    decreases s.len() + 1 - i,
{
    if i < 0 || i > s.len() {
        seq![]
    } else {
        let k = find_char(s, c, i);
        if k >= s.len() || k < i {
            seq![s.subrange(i, s.len() as int)]
        } else {
            seq![s.subrange(i, k)] + split_from(s, c, k + 1)
        }
    }
}

/// `str::split` on a character.
pub open spec fn split(s: Seq<char>, c: char) -> Seq<Seq<char>> {
    split_from(s, c, 0)
}

/// The character sequences of a run of character vectors.
pub open spec fn char_views(v: Seq<Vec<char>>) -> Seq<Seq<char>> {
    v.map_values(|w: Vec<char>| w@)
}

pub fn split_chars(s: &[char], c: char) -> (r: Vec<Vec<char>>)
    ensures
        char_views(r@) == split(s@, c),
{
    let mut r: Vec<Vec<char>> = Vec::new();
    let mut i: usize = 0;
    loop
        invariant
            i <= s@.len(),
            char_views(r@) + split_from(s@, c, i as int) == split(s@, c),
        decreases s@.len() + 1 - i,
    {
        let k = find_char_from(s, c, i);
        proof {
            lemma_find_char(s@, c, i as int);
        }
        let piece = copy_range(s, i, k);
        let ghost old_r = char_views(r@);
        r.push(piece);
        assert(char_views(r@) =~= old_r.push(s@.subrange(i as int, k as int)));
        if k == s.len() {
            assert(split_from(s@, c, i as int) =~= seq![s@.subrange(i as int, s@.len() as int)]);
            assert(char_views(r@) =~= old_r + split_from(s@, c, i as int));
            return r;
        }
        assert(split_from(s@, c, i as int) =~= seq![s@.subrange(i as int, k as int)] + split_from(
            s@,
            c,
            k + 1,
        ));
        assert(char_views(r@) + split_from(s@, c, k + 1) =~= old_r + split_from(s@, c, i as int));
        i = k + 1;
    }
}

/// The words of `s` (`str::split_whitespace`).
pub fn words_of(s: &[char]) -> (r: Vec<Vec<char>>)
    ensures
        char_views(r@) == words(s@),
{
    let mut r: Vec<Vec<char>> = Vec::new();
    let mut i: usize = 0;
    loop
        invariant
            i <= s@.len(),
            char_views(r@) + words_from(s@, i as int) == words(s@),
        decreases s@.len() - i,
    {
        let mut a = i;
        while a < s.len() && is_whitespace(s[a])
            invariant
                i <= a <= s@.len(),
                next_non_ws(s@, a as int) == next_non_ws(s@, i as int),
            decreases s@.len() - a,
        {
            a += 1;
        }
        if a == s.len() {
            assert(words_from(s@, i as int) =~= Seq::<Seq<char>>::empty());
            assert(char_views(r@) =~= char_views(r@) + words_from(s@, i as int));
            return r;
        }
        let mut b = a;
        while b < s.len() && !is_whitespace(s[b])
            invariant
                a <= b <= s@.len(),
                next_ws(s@, b as int) == next_ws(s@, a as int),
            decreases s@.len() - b,
        {
            b += 1;
        }
        proof {
            lemma_next_ws(s@, a as int);
        }
        let word = copy_range(s, a, b);
        let ghost old_r = char_views(r@);
        r.push(word);
        assert(char_views(r@) =~= old_r.push(s@.subrange(a as int, b as int)));
        assert(char_views(r@) + words_from(s@, b as int) =~= old_r + words_from(s@, i as int));
        i = b;
    }
}

/// A string holding exactly the given characters.
///
/// Trusted: `FromIterator<char> for String` collects the characters in
/// order, as its documentation states.
#[verifier::external_body]
pub(crate) fn string_from_chars(chars: &[char]) -> (s: String)
    ensures
        s@ == chars@,
{
    chars.iter().collect()
}

} // verus!

verus! {

/// Whether `s` is exactly `p`.
pub fn eq_str(s: &[char], p: &str) -> (r: bool)
    ensures
        r == (s@ == p@),
{
    let n = p.unicode_len();
    if n != s.len() {
        return false;
    }
    let b = starts_with_str(s, p);
    assert(s@.take(s@.len() as int) =~= s@);
    b
}

} // verus!

verus! {

/// Whether two character runs are equal.
pub fn eq_chars(a: &[char], b: &[char]) -> (r: bool)
    ensures
        r == (a@ == b@),
{
    if a.len() != b.len() {
        return false;
    }
    let mut i: usize = 0;
    while i < a.len()
        invariant
            a@.len() == b@.len(),
            i <= a@.len(),
            forall|k: int| 0 <= k < i ==> a@[k] == b@[k],
        decreases a@.len() - i,
    {
        if a[i] != b[i] {
            return false;
        }
        i += 1;
    }
    assert(a@ =~= b@);
    true
}

} // verus!

verus! {

/// The decimal digit `d` (below ten) as a character.
pub open spec fn digit_char(d: nat) -> char {
    seq!['0', '1', '2', '3', '4', '5', '6', '7', '8', '9'][d as int]
}

/// `n` written in decimal, without leading zeros (`0` for zero).
pub open spec fn decimal(n: nat) -> Seq<char>
    decreases n,
{
    if n < 10 {
        seq![digit_char(n)]
    } else {
        decimal(n / 10).push(digit_char(n % 10))
    }
}

fn digit(d: u128) -> (c: char)
    requires
        d < 10,
    ensures
        c == digit_char(d as nat),
{
    if d == 0 {
        '0'
    } else if d == 1 {
        '1'
    } else if d == 2 {
        '2'
    } else if d == 3 {
        '3'
    } else if d == 4 {
        '4'
    } else if d == 5 {
        '5'
    } else if d == 6 {
        '6'
    } else if d == 7 {
        '7'
    } else if d == 8 {
        '8'
    } else {
        '9'
    }
}

/// Appends `n` in decimal to `out`.
pub fn push_decimal(n: u128, out: &mut Vec<char>)
    ensures
        final(out)@ == old(out)@ + decimal(n as nat),
    decreases n,
{
    if n >= 10 {
        push_decimal(n / 10, out);
    }
    out.push(digit(n % 10));
    assert(out@ =~= old(out)@ + decimal(n as nat));
}

/// Appends the characters of `s` to `out`.
pub fn push_str(out: &mut Vec<char>, s: &str)
    ensures
        final(out)@ == old(out)@ + s@,
{
    let cs = chars_of(s);
    let mut i: usize = 0;
    while i < cs.len()
        invariant
            i <= cs@.len(),
            cs@ == s@,
            out@ == old(out)@ + cs@.take(i as int),
        decreases cs@.len() - i,
    {
        out.push(cs[i]);
        i += 1;
        assert(out@ =~= old(out)@ + cs@.take(i as int));
    }
    assert(cs@.take(cs@.len() as int) =~= cs@);
}

} // verus!

verus! {

/// `find_char` past a prefix `p` is `find_char` in the rest, shifted.
pub proof fn lemma_find_char_shift(p: Seq<char>, b: Seq<char>, c: char, j: int)
    requires
        0 <= j <= b.len(),
    ensures
        find_char(p + b, c, p.len() + j) == p.len() + find_char(b, c, j),
    decreases b.len() - j,
{
    if j < b.len() {
        assert((p + b)[p.len() + j] == b[j]);
        if b[j] != c {
            lemma_find_char_shift(p, b, c, j + 1);
        }
    }
}

/// `find_char` in `t + rest` from inside `t`: what it finds in `t`, or,
/// if nothing, what it finds from the end of `t` on.
pub proof fn lemma_find_char_prefix(t: Seq<char>, rest: Seq<char>, c: char, i: int)
    requires
        0 <= i <= t.len(),
    ensures
        find_char(t + rest, c, i) == if find_char(t, c, i) < t.len() {
            find_char(t, c, i)
        } else {
            find_char(t + rest, c, t.len() as int)
        },
    decreases t.len() - i,
{
    if i < t.len() {
        assert((t + rest)[i] == t[i]);
        if t[i] != c {
            lemma_find_char_prefix(t, rest, c, i + 1);
        }
    }
}

/// A text without `c` splits into itself alone.
pub proof fn lemma_split_without(s: Seq<char>, c: char)
    requires
        !s.contains(c),
    ensures
        split(s, c) == seq![s],
{
    lemma_find_char(s, c, 0);
    if find_char(s, c, 0) < s.len() {
        assert(s[find_char(s, c, 0)] == c);
    }
    assert(s.subrange(0, s.len() as int) =~= s);
}

/// Splitting past a prefix `p` is splitting the rest.
pub proof fn lemma_split_from_shift(p: Seq<char>, b: Seq<char>, c: char, j: int)
    requires
        0 <= j <= b.len(),
    ensures
        split_from(p + b, c, p.len() + j) == split_from(b, c, j),
    decreases b.len() - j,
{
    lemma_find_char_shift(p, b, c, j);
    lemma_find_char(b, c, j);
    let k = find_char(b, c, j);
    if k < b.len() {
        lemma_split_from_shift(p, b, c, k + 1);
        assert((p + b).subrange(p.len() + j, p.len() + k) =~= b.subrange(j, k));
    } else {
        assert((p + b).subrange(p.len() + j, (p + b).len() as int) =~= b.subrange(j, b.len() as int));
    }
}

/// Splitting `a`, the separator, then `b` gives the pieces of `a` followed
/// by those of `b`.
pub proof fn lemma_split_concat(a: Seq<char>, b: Seq<char>, c: char, i: int)
    requires
        0 <= i <= a.len(),
    ensures
        split_from(a + seq![c] + b, c, i) == split_from(a, c, i) + split(b, c),
    decreases a.len() - i,
{
    let s = a + seq![c] + b;
    assert(s =~= a + (seq![c] + b));
    lemma_find_char_prefix(a, seq![c] + b, c, i);
    lemma_find_char(a, c, i);
    let k = find_char(a, c, i);
    assert(s[a.len() as int] == c);
    if k < a.len() {
        lemma_split_concat(a, b, c, k + 1);
        assert(s.subrange(i, k) =~= a.subrange(i, k));
        assert(split_from(s, c, i) =~= seq![a.subrange(i, k)] + (split_from(a, c, k + 1) + split(b, c)));
    } else {
        lemma_split_from_shift(a + seq![c], b, c, 0);
        assert(s.subrange(i, a.len() as int) =~= a.subrange(i, a.len() as int));
        assert(split_from(s, c, i) =~= seq![a.subrange(i, a.len() as int)] + split(b, c));
    }
}

/// A text that neither starts nor ends with whitespace is its own trim.
pub proof fn lemma_trim_unpadded(s: Seq<char>)
    requires
        s.len() > 0,
        !is_ws(s[0]),
        !is_ws(s.last()),
    ensures
        trim(s) == s,
        trim(seq![' '] + s) == s,
{
    assert(next_non_ws(s, 0) == 0);
    assert(s.skip(0) =~= s);
    assert(prev_non_ws(s, s.len() as int) == s.len());
    assert(s.take(s.len() as int) =~= s);
    let q = seq![' '] + s;
    assert(q[0] == ' ');
    assert(q[1] == s[0]);
    assert(next_non_ws(q, 1) == 1);
    assert(next_non_ws(q, 0) == 1);
    assert(q.skip(1) =~= s);
}

} // verus!

verus! {

proof fn lemma_next_non_ws_push(s: Seq<char>, c: char, i: int)
    requires
        0 <= i <= s.len(),
        is_ws(c),
    ensures
        next_non_ws(s.push(c), i) == if next_non_ws(s, i) < s.len() {
            next_non_ws(s, i)
        } else {
            s.len() + 1int
        },
    decreases s.len() - i,
{
    if i < s.len() {
        assert(s.push(c)[i] == s[i]);
        if is_ws(s[i]) {
            lemma_next_non_ws_push(s, c, i + 1);
        }
    } else {
        assert(s.push(c)[i] == c);
        assert(next_non_ws(s.push(c), s.len() + 1int) == s.len() + 1int);
    }
}

proof fn lemma_prev_non_ws_push(s: Seq<char>, c: char, j: int)
    requires
        0 <= j <= s.len(),
    ensures
        prev_non_ws(s.push(c), j) == prev_non_ws(s, j),
    decreases j,
{
    if j > 0 {
        assert(s.push(c)[j - 1] == s[j - 1]);
        lemma_prev_non_ws_push(s, c, j - 1);
    }
}

proof fn lemma_prev_non_ws_bound(s: Seq<char>, j: int)
    requires
        0 <= j <= s.len(),
    ensures
        0 <= prev_non_ws(s, j) <= j,
    decreases j,
{
    if j > 0 && is_ws(s[j - 1]) {
        lemma_prev_non_ws_bound(s, j - 1);
    }
}

/// Whitespace added at the end does not change the trim.
pub proof fn lemma_trim_push_ws(s: Seq<char>, c: char)
    requires
        is_ws(c),
    ensures
        trim(s.push(c)) == trim(s),
{
    lemma_next_non_ws_push(s, c, 0);
    lemma_next_non_ws(s, 0);
    let n = next_non_ws(s, 0);
    if n < s.len() {
        let u = s.skip(n);
        assert(s.push(c).skip(n) =~= u.push(c));
        assert(u.push(c)[u.len() as int] == c);
        assert(prev_non_ws(u.push(c), u.len() + 1int) == prev_non_ws(u.push(c), u.len() as int));
        lemma_prev_non_ws_push(u, c, u.len() as int);
        lemma_prev_non_ws_bound(u, u.len() as int);
        assert(u.push(c).take(prev_non_ws(u, u.len() as int)) =~= u.take(
            prev_non_ws(u, u.len() as int),
        ));
    } else {
        assert(s.skip(n) =~= Seq::<char>::empty());
        assert(s.push(c).skip(s.len() + 1int) =~= Seq::<char>::empty());
    }
}

/// Splitting into lines past a prefix `p` is splitting the rest.
pub proof fn lemma_lines_from_shift(p: Seq<char>, b: Seq<char>, j: int)
    requires
        0 <= j <= b.len(),
    ensures
        lines_from(p + b, p.len() + j) == lines_from(b, j),
    decreases b.len() - j,
{
    if j < b.len() {
        lemma_find_char_shift(p, b, '\n', j);
        lemma_find_char(b, '\n', j);
        let k = find_char(b, '\n', j);
        if k < b.len() {
            lemma_lines_from_shift(p, b, k + 1);
            assert((p + b).subrange(p.len() + j, p.len() + k) =~= b.subrange(j, k));
        } else {
            assert((p + b).subrange(p.len() + j, (p + b).len() as int) =~= b.subrange(
                j,
                b.len() as int,
            ));
        }
    }
}

} // verus!
