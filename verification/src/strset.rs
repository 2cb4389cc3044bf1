//! Sets of strings kept as strictly increasing vectors.
//!
//! The order is the one `String`'s `Ord` uses: byte-wise lexicographic order
//! of the UTF-8 encodings. A `StringSet` iterates in that order, holds no
//! string twice, and is viewed as the mathematical set of its strings.

use vstd::prelude::*;
use vstd::utf8::encode_utf8;

verus! {

broadcast use vstd::seq_lib::group_seq_properties;

/// Lexicographic strict order on byte strings.
pub open spec fn bytes_lt(a: Seq<u8>, b: Seq<u8>) -> bool
    decreases a.len(),
{
    if a.len() == 0 {
        b.len() > 0
    } else if b.len() == 0 {
        false
    } else if a[0] != b[0] {
        a[0] < b[0]
    } else {
        bytes_lt(a.drop_first(), b.drop_first())
    }
}

/// The order of `String`: lexicographic on the UTF-8 bytes.
pub open spec fn str_lt(a: Seq<char>, b: Seq<char>) -> bool {
    bytes_lt(encode_utf8(a), encode_utf8(b))
}

/// Strictly increasing in `str_lt`.
pub open spec fn strictly_sorted(s: Seq<Seq<char>>) -> bool {
    forall|i: int, j: int| 0 <= i < j < s.len() ==> str_lt(#[trigger] s[i], #[trigger] s[j])
}

/// The character sequences of a run of strings.
pub open spec fn views(v: Seq<String>) -> Seq<Seq<char>> {
    v.map_values(|s: String| s@)
}

pub proof fn lemma_bytes_lt_irreflexive(a: Seq<u8>)
    ensures
        !bytes_lt(a, a),
    decreases a.len(),
{
    if a.len() > 0 {
        lemma_bytes_lt_irreflexive(a.drop_first());
    }
}

pub proof fn lemma_bytes_lt_transitive(a: Seq<u8>, b: Seq<u8>, c: Seq<u8>)
    requires
        bytes_lt(a, b),
        bytes_lt(b, c),
    ensures
        bytes_lt(a, c),
    decreases a.len(),
{
    if a.len() > 0 && b.len() > 0 && c.len() > 0 && a[0] == b[0] && b[0] == c[0] {
        lemma_bytes_lt_transitive(a.drop_first(), b.drop_first(), c.drop_first());
    }
}

pub proof fn lemma_bytes_lt_total(a: Seq<u8>, b: Seq<u8>)
    ensures
        a == b || bytes_lt(a, b) || bytes_lt(b, a),
    decreases a.len(),
{
    if a.len() > 0 && b.len() > 0 && a[0] == b[0] {
        lemma_bytes_lt_total(a.drop_first(), b.drop_first());
        if a.drop_first() == b.drop_first() {
            assert(a =~= seq![a[0]] + a.drop_first());
            assert(b =~= seq![b[0]] + b.drop_first());
        }
    } else if a.len() == 0 && b.len() == 0 {
        assert(a =~= b);
    }
}

pub proof fn lemma_bytes_lt_asymmetric(a: Seq<u8>, b: Seq<u8>)
    requires
        bytes_lt(a, b),
    ensures
        !bytes_lt(b, a),
{
    if bytes_lt(b, a) {
        lemma_bytes_lt_transitive(a, b, a);
        lemma_bytes_lt_irreflexive(a);
    }
}

pub proof fn lemma_encode_injective(a: Seq<char>, b: Seq<char>)
    requires
        encode_utf8(a) == encode_utf8(b),
    ensures
        a == b,
{
    vstd::utf8::encode_utf8_decode_utf8(a);
    vstd::utf8::encode_utf8_decode_utf8(b);
}

pub proof fn lemma_str_lt_irreflexive(a: Seq<char>)
    ensures
        !str_lt(a, a),
{
    lemma_bytes_lt_irreflexive(encode_utf8(a));
}

pub proof fn lemma_str_lt_transitive(a: Seq<char>, b: Seq<char>, c: Seq<char>)
    requires
        str_lt(a, b),
        str_lt(b, c),
    ensures
        str_lt(a, c),
{
    lemma_bytes_lt_transitive(encode_utf8(a), encode_utf8(b), encode_utf8(c));
}

/// A strictly sorted sequence holds no element twice.
pub proof fn lemma_sorted_no_duplicates(s: Seq<Seq<char>>)
    requires
        strictly_sorted(s),
    ensures
        s.no_duplicates(),
{
    assert forall|i: int, j: int| 0 <= i < s.len() && 0 <= j < s.len() && i != j implies s[i]
        != s[j] by {
        if i < j {
            assert(str_lt(s[i], s[j]));
        } else {
            assert(str_lt(s[j], s[i]));
        }
        lemma_str_lt_irreflexive(s[i]);
    }
}

/// Appending an element above the last keeps a sequence strictly sorted.
pub proof fn lemma_sorted_push(s: Seq<Seq<char>>, x: Seq<char>)
    requires
        strictly_sorted(s),
        s.len() > 0 ==> str_lt(s.last(), x),
    ensures
        strictly_sorted(s.push(x)),
{
    let t = s.push(x);
    assert forall|i: int, j: int| 0 <= i < j < t.len() implies str_lt(#[trigger] t[i], #[trigger] t[j]) by {
        if j == s.len() {
            if i < s.len() - 1 {
                assert(str_lt(s[i], s[s.len() - 1]));
                lemma_str_lt_transitive(s[i], s.last(), x);
            }
        } else {
            assert(str_lt(s[i], s[j]));
        }
    }
}

/// Three-way result of a comparison.
#[derive(Debug, Clone, Copy, PartialEq, Eq)]
pub enum Cmp {
    Less,
    Equal,
    Greater,
}

pub fn compare_bytes(a: &[u8], b: &[u8]) -> (r: Cmp)
    ensures
        r == Cmp::Less <==> bytes_lt(a@, b@),
        r == Cmp::Equal <==> a@ == b@,
        r == Cmp::Greater <==> bytes_lt(b@, a@),
{
    let mut i: usize = 0;
    while i < a.len() && i < b.len() && a[i] == b[i]
        invariant
            i <= a@.len(),
            i <= b@.len(),
            a@.take(i as int) == b@.take(i as int),
            bytes_lt(a@, b@) == bytes_lt(a@.skip(i as int), b@.skip(i as int)),
            bytes_lt(b@, a@) == bytes_lt(b@.skip(i as int), a@.skip(i as int)),
        decreases a@.len() - i,
    {
        assert(a@.skip(i as int).drop_first() =~= a@.skip(i + 1));
        assert(b@.skip(i as int).drop_first() =~= b@.skip(i + 1));
        i += 1;
        assert(a@.take(i as int) =~= a@.take(i - 1).push(a@[i - 1]));
        assert(b@.take(i as int) =~= b@.take(i - 1).push(b@[i - 1]));
    }
    let ghost sa = a@.skip(i as int);
    let ghost sb = b@.skip(i as int);
    if i == a.len() && i == b.len() {
        assert(a@ =~= a@.take(i as int));
        assert(b@ =~= b@.take(i as int));
        proof {
            lemma_bytes_lt_irreflexive(a@);
        }
        Cmp::Equal
    } else if i == a.len() {
        assert(sa.len() == 0 && sb.len() > 0);
        proof {
            lemma_bytes_lt_asymmetric(a@, b@);
        }
        assert(a@.len() != b@.len());
        Cmp::Less
    } else if i == b.len() {
        assert(sb.len() == 0 && sa.len() > 0);
        proof {
            lemma_bytes_lt_asymmetric(b@, a@);
        }
        assert(a@.len() != b@.len());
        Cmp::Greater
    } else if a[i] < b[i] {
        assert(sa[0] == a@[i as int] && sb[0] == b@[i as int]);
        proof {
            lemma_bytes_lt_asymmetric(a@, b@);
        }
        assert(a@[i as int] != b@[i as int]);
        Cmp::Less
    } else {
        assert(sa[0] == a@[i as int] && sb[0] == b@[i as int]);
        proof {
            lemma_bytes_lt_asymmetric(b@, a@);
        }
        assert(a@[i as int] != b@[i as int]);
        Cmp::Greater
    }
}

/// Compares two strings in the order of `String`.
pub fn compare_strs(a: &str, b: &str) -> (r: Cmp)
    ensures
        r == Cmp::Less <==> str_lt(a@, b@),
        r == Cmp::Equal <==> a@ == b@,
        r == Cmp::Greater <==> str_lt(b@, a@),
{
    let r = compare_bytes(a.as_bytes(), b.as_bytes());
    proof {
        if encode_utf8(a@) == encode_utf8(b@) {
            lemma_encode_injective(a@, b@);
        }
    }
    r
}

} // verus!

verus! {

/// A set of strings, stored strictly increasing.
#[derive(Debug)]
pub struct StringSet {
    items: Vec<String>,
}

impl View for StringSet {
    type V = Set<Seq<char>>;

    closed spec fn view(&self) -> Set<Seq<char>> {
        views(self.items@).to_set()
    }
}

/// Merges two strictly sorted runs into the strictly sorted run of their union.
fn merge_union(a: &[String], b: &[String]) -> (r: Vec<String>)
    requires
        strictly_sorted(views(a@)),
        strictly_sorted(views(b@)),
    ensures
        strictly_sorted(views(r@)),
        views(r@).to_set() == views(a@).to_set() + views(b@).to_set(),
        r@.len() <= a@.len() + b@.len(),
{
    let ghost va = views(a@);
    let ghost vb = views(b@);
    let mut r: Vec<String> = Vec::new();
    let mut i: usize = 0;
    let mut j: usize = 0;
    while i < a.len() || j < b.len()
        invariant
            va == views(a@),
            vb == views(b@),
            strictly_sorted(va),
            strictly_sorted(vb),
            i <= a@.len(),
            j <= b@.len(),
            r@.len() <= i + j,
            strictly_sorted(views(r@)),
            views(r@).to_set() == va.take(i as int).to_set() + vb.take(j as int).to_set(),
            r@.len() > 0 && i < a@.len() ==> str_lt(views(r@).last(), va[i as int]),
            r@.len() > 0 && j < b@.len() ==> str_lt(views(r@).last(), vb[j as int]),
        decreases a@.len() + b@.len() - i - j,
    {
        let ghost old_r = views(r@);
        let take_a;
        let take_b;
        if i == a.len() {
            take_a = false;
            take_b = true;
        } else if j == b.len() {
            take_a = true;
            take_b = false;
        } else {
            match compare_strs(a[i].as_str(), b[j].as_str()) {
                Cmp::Less => {
                    take_a = true;
                    take_b = false;
                },
                Cmp::Greater => {
                    take_a = false;
                    take_b = true;
                },
                Cmp::Equal => {
                    take_a = true;
                    take_b = true;
                },
            }
        }
        if take_a {
            let x = a[i].clone();
            r.push(x);
            assert(views(r@) =~= old_r.push(va[i as int]));
            proof {
                lemma_sorted_push(old_r, va[i as int]);
                old_r.lemma_push_to_set_commute(va[i as int]);
                va.take(i as int).lemma_push_to_set_commute(va[i as int]);
            }
            assert(va.take(i + 1) =~= va.take(i as int).push(va[i as int]));
            if take_b {
                assert(vb.take(j + 1) =~= vb.take(j as int).push(vb[j as int]));
                proof {
                    vb.take(j as int).lemma_push_to_set_commute(vb[j as int]);
                }
                assert(views(r@).to_set() =~= va.take(i + 1).to_set() + vb.take(j + 1).to_set());
                j += 1;
            } else {
                assert(views(r@).to_set() =~= va.take(i + 1).to_set() + vb.take(j as int).to_set());
            }
            i += 1;
            proof {
                if i < a@.len() {
                    assert(str_lt(va[i - 1], va[i as int]));
                }
                if j < b@.len() && !take_b {
                    assert(str_lt(va[i - 1], vb[j as int]));
                }
                if j < b@.len() && take_b {
                    assert(str_lt(vb[j - 1], vb[j as int]));
                }
            }
        } else {
            let x = b[j].clone();
            r.push(x);
            assert(views(r@) =~= old_r.push(vb[j as int]));
            proof {
                lemma_sorted_push(old_r, vb[j as int]);
                old_r.lemma_push_to_set_commute(vb[j as int]);
                vb.take(j as int).lemma_push_to_set_commute(vb[j as int]);
            }
            assert(vb.take(j + 1) =~= vb.take(j as int).push(vb[j as int]));
            assert(views(r@).to_set() =~= va.take(i as int).to_set() + vb.take(j + 1).to_set());
            j += 1;
            proof {
                if j < b@.len() {
                    assert(str_lt(vb[j - 1], vb[j as int]));
                }
            }
        }
    }
    assert(va.take(a@.len() as int) =~= va);
    assert(vb.take(b@.len() as int) =~= vb);
    r
}

/// The strictly sorted run holding the strings of `v[lo..hi]`.
fn sort_dedup_range(v: &[String], lo: usize, hi: usize) -> (r: Vec<String>)
    requires
        lo <= hi <= v@.len(),
    ensures
        strictly_sorted(views(r@)),
        views(r@).to_set() == views(v@).subrange(lo as int, hi as int).to_set(),
        r@.len() <= hi - lo,
    decreases hi - lo,
{
    let ghost vv = views(v@);
    if hi == lo {
        let r: Vec<String> = Vec::new();
        assert(vv.subrange(lo as int, hi as int) =~= Seq::<Seq<char>>::empty());
        assert(views(r@) =~= Seq::<Seq<char>>::empty());
        r
    } else if hi - lo == 1 {
        let mut r: Vec<String> = Vec::new();
        r.push(v[lo].clone());
        assert(views(r@) =~= vv.subrange(lo as int, hi as int));
        r
    } else {
        let mid = lo + (hi - lo) / 2;
        let left = sort_dedup_range(v, lo, mid);
        let right = sort_dedup_range(v, mid, hi);
        let r = merge_union(left.as_slice(), right.as_slice());
        proof {
            assert(vv.subrange(lo as int, hi as int) =~= vv.subrange(lo as int, mid as int)
                + vv.subrange(mid as int, hi as int));
            vstd::seq_lib::seq_to_set_distributes_over_add(
                vv.subrange(lo as int, mid as int),
                vv.subrange(mid as int, hi as int),
            );
        }
        r
    }
}

/// Strings of `a` that do not occur in `b`, as a strictly sorted run.
fn merge_difference(a: &[String], b: &[String]) -> (r: Vec<String>)
    requires
        strictly_sorted(views(a@)),
        strictly_sorted(views(b@)),
    ensures
        strictly_sorted(views(r@)),
        views(r@).to_set() == views(a@).to_set() - views(b@).to_set(),
{
    let ghost va = views(a@);
    let ghost vb = views(b@);
    let mut r: Vec<String> = Vec::new();
    let mut i: usize = 0;
    let mut j: usize = 0;
    while i < a.len()
        invariant
            va == views(a@),
            vb == views(b@),
            strictly_sorted(va),
            strictly_sorted(vb),
            i <= a@.len(),
            j <= b@.len(),
            strictly_sorted(views(r@)),
            views(r@).to_set() == va.take(i as int).to_set() - vb.to_set(),
            r@.len() > 0 && i < a@.len() ==> str_lt(views(r@).last(), va[i as int]),
            // every string of b before j lies below a[i]
            i < a@.len() ==> forall|k: int| 0 <= k < j ==> str_lt(#[trigger] vb[k], va[i as int]),
        decreases a@.len() - i, b@.len() - j,
    {
        let ghost old_r = views(r@);
        if j < b.len() {
            match compare_strs(b[j].as_str(), a[i].as_str()) {
                Cmp::Less => {
                    j += 1;
                    continue;
                },
                Cmp::Equal => {
                    proof {
                        assert(va.take(i + 1) =~= va.take(i as int).push(va[i as int]));
                        va.take(i as int).lemma_push_to_set_commute(va[i as int]);
                        assert(vb.to_set().contains(vb[j as int]));
                        assert(va.take(i + 1).to_set() - vb.to_set() =~= va.take(i as int).to_set()
                            - vb.to_set());
                    }
                    i += 1;
                    proof {
                        if i < a@.len() {
                            assert(str_lt(va[i - 1], va[i as int]));
                            assert forall|k: int| 0 <= k < j implies str_lt(#[trigger] vb[k], va[i as int]) by {
                                lemma_str_lt_transitive(vb[k], va[i - 1], va[i as int]);
                            }
                            if r@.len() > 0 {
                                lemma_str_lt_transitive(old_r.last(), va[i - 1], va[i as int]);
                            }
                        }
                    }
                    continue;
                },
                Cmp::Greater => {},
            }
        }
        // a[i] is not in b: everything before j is below it, everything from j on above it
        proof {
            assert(!vb.to_set().contains(va[i as int])) by {
                if vb.to_set().contains(va[i as int]) {
                    let k = choose|k: int| 0 <= k < vb.len() && vb[k] == va[i as int];
                    if k < j {
                        assert(str_lt(vb[k], va[i as int]));
                        lemma_str_lt_irreflexive(va[i as int]);
                    } else {
                        assert(j < b@.len());
                        assert(str_lt(va[i as int], vb[j as int]));
                        if k > j {
                            assert(str_lt(vb[j as int], vb[k]));
                            lemma_str_lt_transitive(va[i as int], vb[j as int], vb[k]);
                        }
                        lemma_str_lt_irreflexive(va[i as int]);
                    }
                }
            }
        }
        r.push(a[i].clone());
        assert(views(r@) =~= old_r.push(va[i as int]));
        proof {
            lemma_sorted_push(old_r, va[i as int]);
            old_r.lemma_push_to_set_commute(va[i as int]);
            va.take(i as int).lemma_push_to_set_commute(va[i as int]);
            assert(va.take(i + 1) =~= va.take(i as int).push(va[i as int]));
            assert(views(r@).to_set() =~= va.take(i + 1).to_set() - vb.to_set());
        }
        i += 1;
        proof {
            if i < a@.len() {
                assert(str_lt(va[i - 1], va[i as int]));
                assert forall|k: int| 0 <= k < j implies str_lt(#[trigger] vb[k], va[i as int]) by {
                    lemma_str_lt_transitive(vb[k], va[i - 1], va[i as int]);
                }
            }
        }
    }
    assert(va.take(a@.len() as int) =~= va);
    r
}

impl StringSet {
    #[verifier::type_invariant]
    spec fn sorted(&self) -> bool {
        strictly_sorted(views(self.items@))
    }

    /// The strings in increasing order.
    pub closed spec fn seq(&self) -> Seq<Seq<char>> {
        views(self.items@)
    }

    /// The empty set.
    pub fn new() -> (r: StringSet)
        ensures
            r@ == Set::<Seq<char>>::empty(),
            r.seq().len() == 0,
    {
        let r = StringSet { items: Vec::new() };
        assert(views(r.items@) =~= Seq::<Seq<char>>::empty());
        r
    }

    /// The set of the given strings, duplicates dropped.
    pub fn from_vec(v: Vec<String>) -> (r: StringSet)
        ensures
            r@ == views(v@).to_set(),
    {
        let items = sort_dedup_range(v.as_slice(), 0, v.len());
        assert(views(v@).subrange(0, v@.len() as int) =~= views(v@));
        StringSet { items }
    }

    /// Number of strings held.
    pub fn len(&self) -> (n: usize)
        ensures
            n == self@.len(),
            n == self.seq().len(),
    {
        proof {
            use_type_invariant(self);
            lemma_sorted_no_duplicates(views(self.items@));
            views(self.items@).unique_seq_to_set();
        }
        self.items.len()
    }

    pub fn is_empty(&self) -> (b: bool)
        ensures
            b == (self@.len() == 0),
            b == (self@ == Set::<Seq<char>>::empty()),
    {
        proof {
            use_type_invariant(self);
            lemma_sorted_no_duplicates(views(self.items@));
            views(self.items@).unique_seq_to_set();
            if self.items@.len() > 0 {
                assert(self@.contains(views(self.items@)[0]));
            } else {
                assert(views(self.items@) =~= Seq::<Seq<char>>::empty());
                assert(self@ =~= Set::<Seq<char>>::empty());
            }
        }
        self.items.len() == 0
    }

    /// The strings, strictly increasing in the order of `String`.
    pub fn as_slice(&self) -> (r: &[String])
        ensures
            views(r@) == self.seq(),
            strictly_sorted(self.seq()),
            self.seq().to_set() == self@,
            self.seq().no_duplicates(),
    {
        proof {
            use_type_invariant(self);
            lemma_sorted_no_duplicates(views(self.items@));
        }
        self.items.as_slice()
    }

    /// Whether `s` is in the set (binary search).
    pub fn contains(&self, s: &str) -> (b: bool)
        ensures
            b == self@.contains(s@),
    {
        proof {
            use_type_invariant(self);
        }
        let ghost v = views(self.items@);
        let mut lo: usize = 0;
        let mut hi: usize = self.items.len();
        while lo < hi
            invariant
                v == views(self.items@),
                strictly_sorted(v),
                lo <= hi <= v.len(),
                forall|k: int| 0 <= k < lo ==> str_lt(#[trigger] v[k], s@),
                forall|k: int| hi <= k < v.len() ==> str_lt(s@, #[trigger] v[k]),
            decreases hi - lo,
        {
            let mid = lo + (hi - lo) / 2;
            match compare_strs(self.items[mid].as_str(), s) {
                Cmp::Equal => {
                    assert(self@.contains(v[mid as int]));
                    return true;
                },
                Cmp::Less => {
                    assert forall|k: int| 0 <= k < mid + 1 implies str_lt(#[trigger] v[k], s@) by {
                        if k < mid {
                            lemma_str_lt_transitive(v[k], v[mid as int], s@);
                        }
                    }
                    lo = mid + 1;
                },
                Cmp::Greater => {
                    assert forall|k: int| mid <= k < v.len() implies str_lt(s@, #[trigger] v[k]) by {
                        if k > mid {
                            lemma_str_lt_transitive(s@, v[mid as int], v[k]);
                        }
                    }
                    hi = mid;
                },
            }
        }
        proof {
            if self@.contains(s@) {
                let k = choose|k: int| 0 <= k < v.len() && v[k] == s@;
                lemma_str_lt_irreflexive(s@);
            }
        }
        false
    }

    /// Union of two sets.
    pub fn union(&self, other: &StringSet) -> (r: StringSet)
        ensures
            r@ == self@ + other@,
    {
        proof {
            use_type_invariant(self);
            use_type_invariant(other);
        }
        let items = merge_union(self.items.as_slice(), other.items.as_slice());
        StringSet { items }
    }

    /// The strings of `self` that are not in `other`.
    pub fn difference(&self, other: &StringSet) -> (r: StringSet)
        ensures
            r@ == self@ - other@,
    {
        proof {
            use_type_invariant(self);
            use_type_invariant(other);
        }
        let items = merge_difference(self.items.as_slice(), other.items.as_slice());
        StringSet { items }
    }
}

} // verus!

verus! {

/// A set has one strictly sorted arrangement: two strictly sorted sequences
/// with the same elements are equal. So a `StringSet` (and the CDB written
/// from it) depends on its contents alone.
pub proof fn law_sorted_arrangement_is_unique(s: Seq<Seq<char>>, t: Seq<Seq<char>>)
    requires
        strictly_sorted(s),
        strictly_sorted(t),
        s.to_set() == t.to_set(),
    ensures
        s == t,
    decreases s.len(),
{
    if s.len() == 0 {
        if t.len() > 0 {
            assert(t.to_set().contains(t[0]));
        }
        assert(s =~= t);
    } else if t.len() == 0 {
        assert(s.to_set().contains(s[0]));
    } else {
        assert(t.to_set().contains(s[0]));
        assert(s.to_set().contains(t[0]));
        let k = choose|k: int| 0 <= k < t.len() && t[k] == s[0];
        let m = choose|m: int| 0 <= m < s.len() && s[m] == t[0];
        if k > 0 {
            assert(str_lt(t[0], t[k]));
            if m > 0 {
                assert(str_lt(s[0], s[m]));
                lemma_bytes_lt_asymmetric(encode_utf8(s[0]), encode_utf8(t[0]));
            } else {
                lemma_str_lt_irreflexive(s[0]);
            }
        }
        assert(s[0] == t[0]);
        let s1 = s.drop_first();
        let t1 = t.drop_first();
        assert(strictly_sorted(s1)) by {
            assert forall|i: int, j: int| 0 <= i < j < s1.len() implies str_lt(#[trigger] s1[i], #[trigger] s1[j]) by {
                assert(s1[i] == s[i + 1] && s1[j] == s[j + 1]);
            }
        }
        assert(strictly_sorted(t1)) by {
            assert forall|i: int, j: int| 0 <= i < j < t1.len() implies str_lt(#[trigger] t1[i], #[trigger] t1[j]) by {
                assert(t1[i] == t[i + 1] && t1[j] == t[j + 1]);
            }
        }
        assert(s1.to_set() =~= t1.to_set()) by {
            assert forall|x: Seq<char>| s1.to_set().contains(x) implies t1.to_set().contains(x) by {
                let i = choose|i: int| 0 <= i < s1.len() && s1[i] == x;
                assert(str_lt(s[0], s[i + 1]));
                assert(t.to_set().contains(x));
                let j = choose|j: int| 0 <= j < t.len() && t[j] == x;
                if j == 0 {
                    lemma_str_lt_irreflexive(s[0]);
                }
                assert(t1[j - 1] == x);
            }
            assert forall|x: Seq<char>| t1.to_set().contains(x) implies s1.to_set().contains(x) by {
                let i = choose|i: int| 0 <= i < t1.len() && t1[i] == x;
                assert(str_lt(t[0], t[i + 1]));
                assert(s.to_set().contains(x));
                let j = choose|j: int| 0 <= j < s.len() && s[j] == x;
                if j == 0 {
                    lemma_str_lt_irreflexive(t[0]);
                }
                assert(s1[j - 1] == x);
            }
        }
        law_sorted_arrangement_is_unique(s1, t1);
        assert(s =~= seq![s[0]] + s1);
        assert(t =~= seq![t[0]] + t1);
    }
}

} // verus!
