//! Keys of the CDB files.
//!
//! By default a domain is stored in DNS wire format: each label preceded by
//! its length in bytes, then a zero byte. Values are always empty. The
//! files themselves are written outside the library.

use vstd::prelude::*;
use vstd::utf8::encode_utf8;
use crate::config::OutputKeyFormat;
use crate::normalize::{is_label_char, is_normalized, valid_label};
use crate::cache::{join, join_path};
use crate::normalize::opt_view;
use crate::text::{
    char_views, chars_of, decimal, push_decimal, push_str, split, split_chars, split_from,
    string_from_chars,
};
use vstd::string::StrSliceExecFns;

verus! {

broadcast use vstd::seq_lib::group_seq_properties;

/// The labels in wire format, each preceded by its byte length.
pub open spec fn wire_body(labels: Seq<Seq<char>>) -> Seq<u8>
    decreases labels.len(),
{
    if labels.len() == 0 {
        seq![]
    } else {
        let l = encode_utf8(labels.last());
        wire_body(labels.drop_last()) + seq![l.len() as u8] + l
    }
}

/// Every label takes 1 to 63 bytes.
pub open spec fn labels_fit(labels: Seq<Seq<char>>) -> bool {
    forall|i: int| 0 <= i < labels.len() ==> 1 <= #[trigger] encode_utf8(labels[i]).len() <= 63
}

/// The wire form of a domain: its dot-separated labels, length-prefixed,
/// then a zero byte; `None` when a label is empty or longer than 63 bytes,
/// or the whole is longer than 255 bytes.
pub open spec fn wire_spec(domain: Seq<char>) -> Option<Seq<u8>> {
    let labels = split(domain, '.');
    let w = wire_body(labels).push(0u8);
    if labels_fit(labels) && w.len() <= 255 {
        Some(w)
    } else {
        None
    }
}

/// The CDB key of a domain in the given format.
pub open spec fn key_spec(domain: Seq<char>, format: OutputKeyFormat) -> Option<Seq<u8>> {
    match format {
        OutputKeyFormat::Wire => wire_spec(domain),
        OutputKeyFormat::Plain => Some(encode_utf8(domain)),
    }
}

/// Appends the bytes of `b` to `out`.
fn push_all(out: &mut Vec<u8>, b: &[u8])
    ensures
        final(out)@ == old(out)@ + b@,
{
    let mut i: usize = 0;
    while i < b.len()
        invariant
            i <= b@.len(),
            out@ == old(out)@ + b@.take(i as int),
        decreases b@.len() - i,
    {
        out.push(b[i]);
        i += 1;
        assert(out@ =~= old(out)@ + b@.take(i as int));
    }
    assert(b@.take(b@.len() as int) =~= b@);
}

pub open spec fn opt_bytes_view(o: Option<Vec<u8>>) -> Option<Seq<u8>> {
    match o {
        Some(v) => Some(v@),
        None => None,
    }
}

/// The DNS wire form of a domain (`example.com` becomes
/// `\x07example\x03com\x00`).
pub fn domain_to_wire(domain: &str) -> (r: Option<Vec<u8>>)
    ensures
        opt_bytes_view(r) == wire_spec(domain@),
{
    let cs = chars_of(domain);
    let labels = split_chars(cs.as_slice(), '.');
    let ghost lv = char_views(labels@);
    let mut out: Vec<u8> = Vec::new();
    let mut i: usize = 0;
    while i < labels.len()
        invariant
            lv == char_views(labels@),
            lv == split(domain@, '.'),
            i <= labels@.len(),
            out@ == wire_body(lv.take(i as int)),
            out@.len() <= 255,
            labels_fit(lv.take(i as int)),
        decreases labels@.len() - i,
    {
        let s = string_from_chars(labels[i].as_slice());
        let b = s.as_str().as_bytes();
        assert(lv.take(i + 1).drop_last() =~= lv.take(i as int));
        assert(lv.take(i + 1).last() == lv[i as int]);
        assert(b@ == encode_utf8(lv[i as int]));
        if b.len() == 0 || b.len() > 63 || out.len() + 1 + b.len() > 255 {
            proof {
                lemma_wire_prefix_fails(lv, (i + 1) as int);
            }
            return None;
        }
        out.push(b.len() as u8);
        push_all(&mut out, b);
        i += 1;
        assert(labels_fit(lv.take(i as int))) by {
            assert forall|k: int| 0 <= k < i implies 1 <= #[trigger] encode_utf8(lv.take(i as int)[k]).len() <= 63 by {
                if k < i - 1 {
                    assert(lv.take(i as int)[k] == lv.take(i - 1)[k]);
                }
            }
        }
    }
    assert(lv.take(labels@.len() as int) =~= lv);
    if out.len() + 1 > 255 {
        return None;
    }
    out.push(0u8);
    Some(out)
}

/// Once a prefix of the labels fails to fit, the whole domain has no
/// wire form.
proof fn lemma_wire_prefix_fails(lv: Seq<Seq<char>>, i: int)
    requires
        0 < i <= lv.len(),
        labels_fit(lv.take(i - 1)),
        ({
            let l = encode_utf8(lv[i - 1]);
            l.len() == 0 || l.len() > 63 || wire_body(lv.take(i - 1)).len() + 1 + l.len() > 255
        }),
    ensures
        ({
            let w = wire_body(lv).push(0u8);
            !(labels_fit(lv) && w.len() <= 255)
        }),
{
    let l = encode_utf8(lv[i - 1]);
    if l.len() == 0 || l.len() > 63 {
        assert(!(1 <= encode_utf8(lv[i - 1]).len() <= 63));
    } else {
        assert(lv.take(i).drop_last() =~= lv.take(i - 1));
        assert(wire_body(lv.take(i)).len() > 254);
        lemma_wire_body_prefix_len(lv, i);
    }
}

proof fn lemma_wire_body_prefix_len(lv: Seq<Seq<char>>, i: int)
    requires
        0 <= i <= lv.len(),
    ensures
        wire_body(lv.take(i)).len() <= wire_body(lv).len(),
    decreases lv.len() - i,
{
    if i < lv.len() {
        lemma_wire_body_prefix_len(lv, i + 1);
        assert(lv.take(i + 1).drop_last() =~= lv.take(i));
    } else {
        assert(lv.take(i) =~= lv);
    }
}

/// The CDB key of a domain in the given format.
pub fn cdb_key(domain: &str, format: OutputKeyFormat) -> (r: Option<Vec<u8>>)
    ensures
        opt_bytes_view(r) == key_spec(domain@, format),
{
    match format {
        OutputKeyFormat::Wire => domain_to_wire(domain),
        OutputKeyFormat::Plain => {
            let b = domain.as_bytes();
            let mut v: Vec<u8> = Vec::new();
            push_all(&mut v, b);
            Some(v)
        },
    }
}

} // verus!

verus! {

/// Sum of the lengths of the pieces.
pub open spec fn total_len(ps: Seq<Seq<char>>) -> int
    decreases ps.len(),
{
    if ps.len() == 0 {
        0
    } else {
        ps[0].len() + total_len(ps.drop_first())
    }
}

proof fn lemma_total_len_last(ps: Seq<Seq<char>>)
    requires
        ps.len() > 0,
    ensures
        total_len(ps) == total_len(ps.drop_last()) + ps.last().len(),
    decreases ps.len(),
{
    if ps.len() > 1 {
        lemma_total_len_last(ps.drop_first());
        assert(ps.drop_first().drop_last() =~= ps.drop_last().drop_first());
        assert(ps.drop_last()[0] == ps[0]);
        assert(ps.drop_first().last() == ps.last());
        assert(total_len(ps.drop_last()) == ps[0].len() + total_len(ps.drop_last().drop_first()));
    } else {
        assert(ps.drop_first() =~= Seq::<Seq<char>>::empty());
        assert(ps.drop_last() =~= Seq::<Seq<char>>::empty());
    }
}

/// The pieces of a split, with one separator between each two, make up the
/// text.
proof fn lemma_split_from_len(s: Seq<char>, c: char, i: int)
    requires
        0 <= i <= s.len(),
    ensures
        split_from(s, c, i).len() >= 1,
        total_len(split_from(s, c, i)) + split_from(s, c, i).len() - 1 == s.len() - i,
    decreases s.len() + 1 - i,
{
    crate::text::lemma_find_char(s, c, i);
    let k = crate::text::find_char(s, c, i);
    if k < s.len() {
        lemma_split_from_len(s, c, k + 1);
        let rest = split_from(s, c, k + 1);
        let all = split_from(s, c, i);
        assert(all =~= seq![s.subrange(i, k)] + rest);
        assert(all.drop_first() =~= rest);
        assert(total_len(all) == all[0].len() + total_len(all.drop_first()));
    } else {
        let all = split_from(s, c, i);
        assert(all =~= seq![s.subrange(i, s.len() as int)]);
        assert(all.drop_first() =~= Seq::<Seq<char>>::empty());
        assert(total_len(all) == all[0].len() + total_len(all.drop_first()));
    }
}

proof fn lemma_wire_body_ascii(ps: Seq<Seq<char>>)
    requires
        forall|i: int| 0 <= i < ps.len() ==> vstd::utf8::is_ascii_chars(#[trigger] ps[i]),
    ensures
        wire_body(ps).len() == ps.len() + total_len(ps),
    decreases ps.len(),
{
    if ps.len() > 0 {
        lemma_wire_body_ascii(ps.drop_last());
        lemma_total_len_last(ps);
        assert(vstd::utf8::is_ascii_chars(ps[ps.len() - 1]));
        vstd::utf8::is_ascii_chars_encode_utf8(ps.last());
    }
}

/// Every normalised domain has a wire-format key.
pub proof fn law_normalized_domain_has_wire_key(d: Seq<char>)
    requires
        is_normalized(d),
    ensures
        wire_spec(d) is Some,
{
    let labels = split(d, '.');
    lemma_split_from_len(d, '.', 0);
    assert forall|i: int| 0 <= i < labels.len() implies vstd::utf8::is_ascii_chars(#[trigger] labels[i]) by {
        assert(valid_label(labels[i]));
        assert forall|j: int| 0 <= j < labels[i].len() implies '\0' <= #[trigger] labels[i][j] <= '\u{7f}' by {
            assert(is_label_char(labels[i][j]));
        }
    }
    assert forall|i: int| 0 <= i < labels.len() implies 1 <= #[trigger] encode_utf8(labels[i]).len() <= 63 by {
        assert(valid_label(labels[i]));
        vstd::utf8::is_ascii_chars_encode_utf8(labels[i]);
    }
    lemma_wire_body_ascii(labels);
}

} // verus!

verus! {

/// What `Path::parent` gives for `path`, as text; `None` where the path
/// has no parent.
pub uninterp spec fn path_parent(path: Seq<char>) -> Option<Seq<char>>;

/// What `Path::file_name` gives for `path`, as text; `None` where the path
/// has no final normal component.
pub uninterp spec fn path_file_name(path: Seq<char>) -> Option<Seq<char>>;

/// Trusted: `std::path::Path::parent` on `path`, converted to a `String`
/// (lossless, as the path is UTF-8). The result is named `path_parent`.
#[verifier::external_body]
fn parent_of(path: &str) -> (r: Option<String>)
    ensures
        opt_view(r) == path_parent(path@),
{
    match std::path::Path::new(path).parent() {
        Some(p) => Some(p.to_string_lossy().into_owned()),
        None => None,
    }
}

/// Trusted: `std::path::Path::file_name` on `path`, converted to a
/// `String` (lossless, as the path is UTF-8). The result is named
/// `path_file_name`.
#[verifier::external_body]
fn file_name_of(path: &str) -> (r: Option<String>)
    ensures
        opt_view(r) == path_file_name(path@),
{
    match std::path::Path::new(path).file_name() {
        Some(n) => Some(n.to_string_lossy().into_owned()),
        None => None,
    }
}

/// The directory an output file lives in: the path's parent, or `.` where
/// it has none or an empty one.
pub open spec fn output_dir(path: Seq<char>) -> Seq<char> {
    match path_parent(path) {
        Some(p) => if p.len() > 0 {
            p
        } else {
            "."@
        },
        None => "."@,
    }
}

/// The name of the temporary file an output is first written to:
/// `.<file name>.<pid>.<nanos>.tmp`, with `output.cdb` standing in for a
/// path without a file name.
pub open spec fn temp_name(path: Seq<char>, pid: nat, nanos: nat) -> Seq<char> {
    let name = match path_file_name(path) {
        Some(n) => n,
        None => "output.cdb"@,
    };
    "."@ + name + "."@ + decimal(pid) + "."@ + decimal(nanos) + ".tmp"@
}

/// The directory an output file lives in.
pub fn output_dir_of(path: &str) -> (d: String)
    ensures
        d@ == output_dir(path@),
{
    match parent_of(path) {
        Some(p) => if p.unicode_len() > 0 {
            p
        } else {
            String::from_str(".")
        },
        None => String::from_str("."),
    }
}

/// Where an output is written before it is renamed into place: a file in
/// the same directory, named after the output, the writing process `pid`
/// and the time `nanos` (nanoseconds since the Unix epoch).
pub fn temp_output_path(path: &str, pid: u32, nanos: u128) -> (p: String)
    ensures
        p@ == join_path(output_dir(path@), temp_name(path@, pid as nat, nanos as nat)),
{
    let dir = output_dir_of(path);
    let mut name: Vec<char> = Vec::new();
    push_str(&mut name, ".");
    match file_name_of(path) {
        Some(n) => push_str(&mut name, n.as_str()),
        None => push_str(&mut name, "output.cdb"),
    }
    push_str(&mut name, ".");
    push_decimal(pid as u128, &mut name);
    push_str(&mut name, ".");
    push_decimal(nanos, &mut name);
    push_str(&mut name, ".tmp");
    proof {
        let n = match path_file_name(path@) {
            Some(n) => n,
            None => "output.cdb"@,
        };
        assert(name@ =~= "."@ + n + "."@ + decimal(pid as nat) + "."@ + decimal(nanos as nat) + ".tmp"@);
    }
    join(dir.as_str(), name.as_slice())
}

} // verus!
