//! The on-disk cache of fetched sources: where it keeps them, and when a
//! cached copy may stand in for a source. Reading and writing the files
//! happens outside the library.

use vstd::prelude::*;
use crate::text::{chars_of, decimal, push_decimal, push_str, string_from_chars};

verus! {

broadcast use vstd::seq_lib::group_seq_properties;

/// Where the cache lives.
#[derive(Debug, Clone)]
pub struct Cache {
    root: String,
}

/// A cached body and what it was fetched with.
#[derive(Debug, Clone)]
pub struct CachedSource {
    pub body: Vec<u8>,
    pub metadata: CacheMetadata,
}

/// The URL a body was fetched from and its HTTP validators.
#[derive(Debug, Clone, Default)]
pub struct CacheMetadata {
    pub url: String,
    pub etag: Option<String>,
    pub last_modified: Option<String>,
}

/// `name` joined to `base` as `Path::join` does on Unix: an absolute
/// `name` replaces `base`; otherwise a `/` is put between them unless
/// `base` is empty or already ends with one.
pub open spec fn join_path(base: Seq<char>, name: Seq<char>) -> Seq<char> {
    if name.len() > 0 && name[0] == '/' {
        name
    } else if base.len() == 0 || base.last() == '/' {
        base + name
    } else {
        base + seq!['/'] + name
    }
}

pub open spec fn default_cache_root() -> Seq<char> {
    "/var/cache/cdbgen-rs"@
}

impl View for Cache {
    type V = Seq<char>;

    /// The root directory.
    closed spec fn view(&self) -> Seq<char> {
        self.root@
    }
}

pub(crate) fn join(base: &str, name: &[char]) -> (r: String)
    ensures
        r@ == join_path(base@, name@),
{
    let b = chars_of(base);
    if name.len() > 0 && name[0] == '/' {
        return string_from_chars(name);
    }
    let mut v = b;
    if !(v.len() == 0 || v[v.len() - 1] == '/') {
        v.push('/');
    }
    let ghost mid = v@;
    let mut i: usize = 0;
    while i < name.len()
        invariant
            i <= name@.len(),
            v@ == mid + name@.take(i as int),
        decreases name@.len() - i,
    {
        v.push(name[i]);
        i += 1;
        assert(v@ =~= mid + name@.take(i as int));
    }
    assert(name@.take(name@.len() as int) =~= name@);
    proof {
        if !(base@.len() == 0 || base@.last() == '/') {
            assert(mid =~= base@ + seq!['/']);
        }
    }
    string_from_chars(v.as_slice())
}

impl Cache {
    /// The cache at `/var/cache/cdbgen-rs`.
    pub fn default_root() -> (c: Cache)
        ensures
            c@ == default_cache_root(),
    {
        Cache::new(String::from_str("/var/cache/cdbgen-rs"))
    }

    pub fn new(root: String) -> (c: Cache)
        ensures
            c@ == root@,
    {
        Cache { root }
    }

    pub fn root(&self) -> (r: &str)
        ensures
            r@ == self@,
    {
        self.root.as_str()
    }

    /// Where the body of a source is kept: `<root>/<id>.body`.
    pub fn body_path(&self, source_id: &str) -> (p: String)
        ensures
            p@ == join_path(self@, source_id@ + ".body"@),
    {
        let mut name = chars_of(source_id);
        push_str(&mut name, ".body");
        join(self.root.as_str(), name.as_slice())
    }

    /// Where the metadata of a source is kept: `<root>/<id>.toml`.
    pub fn metadata_path(&self, source_id: &str) -> (p: String)
        ensures
            p@ == join_path(self@, source_id@ + ".toml"@),
    {
        let mut name = chars_of(source_id);
        push_str(&mut name, ".toml");
        join(self.root.as_str(), name.as_slice())
    }

    /// The temporary file a cache entry is first written to:
    /// `<root>/<id>.<pid>.<suffix>.tmp`, `pid` being the writing process.
    pub fn tmp_path(&self, source_id: &str, pid: u32, suffix: &str) -> (p: String)
        ensures
            p@ == join_path(
                self@,
                source_id@ + "."@ + decimal(pid as nat) + "."@ + suffix@ + ".tmp"@,
            ),
    {
        let mut name = chars_of(source_id);
        push_str(&mut name, ".");
        push_decimal(pid as u128, &mut name);
        push_str(&mut name, ".");
        push_str(&mut name, suffix);
        push_str(&mut name, ".tmp");
        join(self.root.as_str(), name.as_slice())
    }

    /// A cached copy stands for a source only if it was fetched from the
    /// same URL.
    pub fn accept_cached(metadata: CacheMetadata, body: Vec<u8>, url: &str) -> (r: Option<
        CachedSource,
    >)
        ensures
            r is Some <==> metadata.url@ == url@,
            r matches Some(c) ==> c.body@ == body@ && c.metadata.url@ == metadata.url@
                && c.metadata.etag == metadata.etag && c.metadata.last_modified
                == metadata.last_modified,
    {
        let u = chars_of(metadata.url.as_str());
        let w = chars_of(url);
        if !crate::text::eq_chars(u.as_slice(), w.as_slice()) {
            return None;
        }
        Some(CachedSource { body, metadata })
    }
}

} // verus!
