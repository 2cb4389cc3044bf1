//! Validation of the configuration.
//!
//! The configuration names sources (`id = url`) and outputs
//! (`"id, id" = path`, a list of paths, or one string of quoted,
//! comma-separated paths). Reading and TOML decoding happen outside the
//! library; `Config::from_raw` checks the decoded tables.

use vstd::prelude::*;
use crate::error::{ConfigError, ConfigErrorView};
use crate::strset::{strictly_sorted, views, StringSet};
use crate::text::{
    char_views, chars_of, copy_range, lemma_split_concat, lemma_split_without, lemma_trim_unpadded,
    split, split_chars, string_from_chars, trim, trim_chars,
};

verus! {

broadcast use vstd::seq_lib::group_seq_properties;

/// How the keys of an output's CDB are written.
#[derive(Debug, Clone, Copy, Default, PartialEq, Eq)]
pub enum OutputKeyFormat {
    /// DNS wire format: length-prefixed labels and a terminating zero byte.
    #[default]
    Wire,
    /// The domain text itself.
    Plain,
}

impl OutputKeyFormat {
    pub fn as_str(self) -> (s: &'static str)
        ensures
            self == OutputKeyFormat::Wire ==> s@ == "wire"@,
            self == OutputKeyFormat::Plain ==> s@ == "plain"@,
    {
        match self {
            OutputKeyFormat::Wire => "wire",
            OutputKeyFormat::Plain => "plain",
        }
    }
}

/// A validated source.
#[derive(Debug, Clone)]
pub struct SourceConfig {
    pub id: String,
    /// The URL as `url::Url` serialises it.
    pub url: String,
}

/// A validated output: the sources it combines and the file it goes to.
#[derive(Debug, Clone, PartialEq, Eq)]
pub struct OutputConfig {
    pub group: String,
    pub source_ids: Vec<String>,
    pub path: String,
    pub key_format: OutputKeyFormat,
}

/// A validated configuration.
#[derive(Debug, Clone)]
pub struct Config {
    /// In the order of their ids.
    pub sources: Vec<SourceConfig>,
    pub outputs: Vec<OutputConfig>,
}

/// The paths of an output as written: one string or a list.
#[derive(Debug, Clone)]
pub enum RawOutputPaths {
    One(String),
    Many(Vec<String>),
}

/// The decoded `[sources]` and `[outputs]` tables, entries in key order.
#[derive(Debug, Clone)]
pub struct RawConfig {
    pub sources: Option<Vec<(String, String)>>,
    pub outputs: Option<Vec<(String, RawOutputPaths)>>,
}

/// The keys of the `[sources]` entries, in order.
pub open spec fn raw_source_keys(rs: Seq<(String, String)>) -> Seq<Seq<char>> {
    rs.map_values(|e: (String, String)| e.0@)
}

/// The keys of the `[outputs]` entries, in order.
pub open spec fn raw_output_keys(ro: Seq<(String, RawOutputPaths)>) -> Seq<Seq<char>> {
    ro.map_values(|e: (String, RawOutputPaths)| e.0@)
}

/// Both tables list their entries by strictly increasing key, as a map
/// ordered by key does: no key occurs twice.
pub open spec fn raw_keys_sorted(raw: RawConfig) -> bool {
    &&& raw.sources is Some ==> strictly_sorted(raw_source_keys(raw.sources.unwrap()@))
    &&& raw.outputs is Some ==> strictly_sorted(raw_output_keys(raw.outputs.unwrap()@))
}

/// A source as plain sequences.
pub struct SourceView {
    pub id: Seq<char>,
    pub url: Seq<char>,
}

/// An output as plain sequences.
pub struct OutputView {
    pub group: Seq<char>,
    pub source_ids: Seq<Seq<char>>,
    pub path: Seq<char>,
    pub key_format: OutputKeyFormat,
}

impl View for SourceConfig {
    type V = SourceView;

    open spec fn view(&self) -> SourceView {
        SourceView { id: self.id@, url: self.url@ }
    }
}

impl View for OutputConfig {
    type V = OutputView;

    open spec fn view(&self) -> OutputView {
        OutputView {
            group: self.group@,
            source_ids: views(self.source_ids@),
            path: self.path@,
            key_format: self.key_format,
        }
    }
}

pub open spec fn source_views(v: Seq<SourceConfig>) -> Seq<SourceView> {
    v.map_values(|s: SourceConfig| s@)
}

pub open spec fn output_views(v: Seq<OutputConfig>) -> Seq<OutputView> {
    v.map_values(|o: OutputConfig| o@)
}

/// What `url::Url::parse` makes of `text`: its scheme and its
/// serialisation, or `None` where parsing fails.
pub uninterp spec fn url_parse(text: Seq<char>) -> Option<(Seq<char>, Seq<char>)>;

/// Trusted: `url::Url::parse`, with `Url::scheme` and `Url::as_str` read
/// off the result; named `url_parse`.
#[verifier::external_body]
fn parse_url(text: &str) -> (r: Option<(String, String)>)
    ensures
        match r {
            Some((scheme, serialized)) => url_parse(text@) == Some((scheme@, serialized@)),
            None => url_parse(text@) is None,
        },
{
    match url::Url::parse(text) {
        Ok(u) => Some((u.scheme().to_owned(), u.as_str().to_owned())),
        Err(_) => None,
    }
}

/// An ASCII letter or digit, `_` or `-`.
pub open spec fn is_id_char(c: char) -> bool {
    ('a' <= c <= 'z') || ('A' <= c <= 'Z') || ('0' <= c <= '9') || c == '_' || c == '-'
}

/// Source ids match `^[a-zA-Z0-9_-]+$`.
pub open spec fn valid_source_id(id: Seq<char>) -> bool {
    id.len() > 0 && forall|i: int| 0 <= i < id.len() ==> is_id_char(#[trigger] id[i])
}

/// One source checked: a valid id and an `http` or `https` URL.
pub open spec fn check_source(id: Seq<char>, url: Seq<char>) -> Result<SourceView, ConfigErrorView> {
    if !valid_source_id(id) {
        Err(ConfigErrorView::InvalidSourceId(id))
    } else {
        match url_parse(url) {
            None => Err(ConfigErrorView::InvalidUrl { source_id: id, url }),
            Some((scheme, serialized)) => if scheme == "http"@ || scheme == "https"@ {
                Ok(SourceView { id, url: serialized })
            } else {
                Err(ConfigErrorView::UnsupportedScheme { source_id: id, scheme })
            },
        }
    }
}

/// The sources checked in order; the first failure is the answer.
pub open spec fn check_sources(raw: Seq<(String, String)>) -> Result<Seq<SourceView>, ConfigErrorView>
    decreases raw.len(),
{
    if raw.len() == 0 {
        Ok(seq![])
    } else {
        match check_sources(raw.drop_last()) {
            Err(e) => Err(e),
            Ok(done) => match check_source(raw.last().0@, raw.last().1@) {
                Err(e) => Err(e),
                Ok(s) => Ok(done.push(s)),
            },
        }
    }
}

/// The trimmed, non-empty pieces, in order.
pub open spec fn group_ids(parts: Seq<Seq<char>>) -> Seq<Seq<char>>
    decreases parts.len(),
{
    if parts.len() == 0 {
        seq![]
    } else {
        let t = trim(parts.last());
        if t.len() == 0 {
            group_ids(parts.drop_last())
        } else {
            group_ids(parts.drop_last()).push(t)
        }
    }
}

/// The source ids an output group names: comma-separated, trimmed, empty
/// pieces dropped.
pub open spec fn output_group_ids(group: Seq<char>) -> Seq<Seq<char>> {
    group_ids(split(group, ','))
}

/// The first id that is not among the known ones.
pub open spec fn first_unknown(ids: Seq<Seq<char>>, known: Set<Seq<char>>) -> Option<Seq<char>>
    decreases ids.len(),
{
    if ids.len() == 0 {
        None
    } else if !known.contains(ids[0]) {
        Some(ids[0])
    } else {
        first_unknown(ids.drop_first(), known)
    }
}

/// A quoted path: `'...'` or `"..."`, the quotes removed.
pub open spec fn unquote(part: Seq<char>) -> Option<Seq<char>> {
    let t = trim(part);
    if t.len() >= 2 && (t[0] == '\'' || t[0] == '"') && t.last() == t[0] {
        Some(t.subrange(1, t.len() - 1))
    } else {
        None
    }
}

/// Every piece unquoted, or `None` if one is not quoted.
pub open spec fn unquote_all(parts: Seq<Seq<char>>) -> Option<Seq<Seq<char>>>
    decreases parts.len(),
{
    if parts.len() == 0 {
        Some(seq![])
    } else {
        match unquote_all(parts.drop_last()) {
            None => None,
            Some(ps) => match unquote(parts.last()) {
                None => None,
                Some(p) => Some(ps.push(p)),
            },
        }
    }
}

/// A string of two or more quoted, comma-separated paths.
pub open spec fn quoted_path_list(value: Seq<char>) -> Option<Seq<Seq<char>>> {
    let parts = split(value, ',');
    if parts.len() < 2 {
        None
    } else {
        unquote_all(parts)
    }
}

/// The paths an output entry names.
pub open spec fn output_paths(p: RawOutputPaths) -> Seq<Seq<char>> {
    match p {
        RawOutputPaths::One(s) => match quoted_path_list(s@) {
            Some(ps) => ps,
            None => seq![s@],
        },
        RawOutputPaths::Many(v) => views(v@),
    }
}

/// One output entry checked against the known source ids.
pub open spec fn check_output(group: Seq<char>, paths: Seq<Seq<char>>, known: Set<Seq<char>>) -> Result<
    Seq<OutputView>,
    ConfigErrorView,
> {
    let ids = output_group_ids(group);
    if ids.len() == 0 {
        Err(ConfigErrorView::EmptyOutputGroup { group })
    } else if first_unknown(ids, known) is Some {
        Err(
            ConfigErrorView::UnknownOutputSource {
                group,
                source_id: first_unknown(ids, known).unwrap(),
            },
        )
    } else if paths.len() == 0 || exists|i: int| 0 <= i < paths.len() && trim(#[trigger] paths[i]).len() == 0 {
        Err(ConfigErrorView::EmptyOutputPath { group })
    } else {
        Ok(
            paths.map_values(
                |p: Seq<char>|
                    OutputView {
                        group,
                        source_ids: ids,
                        path: p,
                        key_format: OutputKeyFormat::Wire,
                    },
            ),
        )
    }
}

/// The outputs checked in order; the first failure is the answer.
pub open spec fn check_outputs(raw: Seq<(String, RawOutputPaths)>, known: Set<Seq<char>>) -> Result<
    Seq<OutputView>,
    ConfigErrorView,
>
    decreases raw.len(),
{
    if raw.len() == 0 {
        Ok(seq![])
    } else {
        match check_outputs(raw.drop_last(), known) {
            Err(e) => Err(e),
            Ok(done) => match check_output(raw.last().0@, output_paths(raw.last().1), known) {
                Err(e) => Err(e),
                Ok(os) => Ok(done + os),
            },
        }
    }
}

/// The ids of checked sources.
pub open spec fn source_ids_of(ss: Seq<SourceView>) -> Set<Seq<char>> {
    ss.map_values(|s: SourceView| s.id).to_set()
}

/// The outputs checked once the sources are.
pub open spec fn after_sources(
    checked: Result<Seq<SourceView>, ConfigErrorView>,
    ro: Seq<(String, RawOutputPaths)>,
) -> Result<(Seq<SourceView>, Seq<OutputView>), ConfigErrorView> {
    match checked {
        Err(e) => Err(e),
        Ok(ss) => match check_outputs(ro, source_ids_of(ss)) {
            Err(e) => Err(e),
            Ok(os) => Ok((ss, os)),
        },
    }
}

/// The configuration a raw configuration validates to, or the first error.
pub open spec fn config_spec(raw: RawConfig) -> Result<(Seq<SourceView>, Seq<OutputView>), ConfigErrorView> {
    match raw.sources {
        None => Err(ConfigErrorView::EmptySources),
        Some(rs) => match raw.outputs {
            None => Err(ConfigErrorView::EmptyOutputs),
            Some(ro) => if rs@.len() == 0 {
                Err(ConfigErrorView::EmptySources)
            } else if ro@.len() == 0 {
                Err(ConfigErrorView::EmptyOutputs)
            } else {
                after_sources(check_sources(rs@), ro@)
            },
        },
    }
}

} // verus!

verus! {

fn is_id_char_exec(c: char) -> (b: bool)
    ensures
        b == is_id_char(c),
{
    ('a' <= c && c <= 'z') || ('A' <= c && c <= 'Z') || ('0' <= c && c <= '9') || c == '_' || c
        == '-'
}

/// Whether `id` matches `^[a-zA-Z0-9_-]+$`.
pub fn is_valid_source_id(id: &str) -> (b: bool)
    ensures
        b == valid_source_id(id@),
{
    let cs = chars_of(id);
    if cs.len() == 0 {
        return false;
    }
    let mut i: usize = 0;
    while i < cs.len()
        invariant
            cs@ == id@,
            i <= cs@.len(),
            forall|k: int| 0 <= k < i ==> is_id_char(#[trigger] cs@[k]),
        decreases cs@.len() - i,
    {
        if !is_id_char_exec(cs[i]) {
            return false;
        }
        i += 1;
    }
    true
}

/// The source ids of an output group: comma-separated, trimmed, empty
/// pieces dropped.
pub fn parse_output_group(group: &str) -> (r: Vec<String>)
    ensures
        views(r@) == output_group_ids(group@),
{
    let cs = chars_of(group);
    let parts = split_chars(cs.as_slice(), ',');
    let ghost pv = char_views(parts@);
    let mut r: Vec<String> = Vec::new();
    let mut i: usize = 0;
    while i < parts.len()
        invariant
            pv == char_views(parts@),
            pv == split(group@, ','),
            i <= parts@.len(),
            views(r@) == group_ids(pv.take(i as int)),
        decreases parts@.len() - i,
    {
        assert(pv.take(i + 1).drop_last() =~= pv.take(i as int));
        assert(pv.take(i + 1).last() == parts@[i as int]@);
        let t = trim_chars(parts[i].as_slice());
        if t.len() > 0 {
            let ghost prev = views(r@);
            r.push(string_from_chars(t.as_slice()));
            assert(views(r@) =~= prev.push(t@));
        }
        i += 1;
    }
    assert(pv.take(parts@.len() as int) =~= pv);
    r
}

/// Unquotes one piece of a quoted path list.
fn unquote_part(part: &[char]) -> (r: Option<String>)
    ensures
        opt_str_view(r) == unquote(part@),
{
    let t = trim_chars(part);
    if t.len() >= 2 && (t[0] == '\'' || t[0] == '"') && t[t.len() - 1] == t[0] {
        let inner = copy_range(t.as_slice(), 1, t.len() - 1);
        Some(string_from_chars(inner.as_slice()))
    } else {
        None
    }
}

pub open spec fn opt_str_view(o: Option<String>) -> Option<Seq<char>> {
    match o {
        Some(s) => Some(s@),
        None => None,
    }
}

/// Two or more quoted, comma-separated paths, unquoted; `None` otherwise.
pub fn parse_quoted_path_list(value: &str) -> (r: Option<Vec<String>>)
    ensures
        match r {
            Some(ps) => quoted_path_list(value@) == Some(views(ps@)),
            None => quoted_path_list(value@) is None,
        },
{
    let cs = chars_of(value);
    let parts = split_chars(cs.as_slice(), ',');
    let ghost pv = char_views(parts@);
    if parts.len() < 2 {
        return None;
    }
    let mut r: Vec<String> = Vec::new();
    let mut i: usize = 0;
    while i < parts.len()
        invariant
            pv == char_views(parts@),
            pv == split(value@, ','),
            i <= parts@.len(),
            unquote_all(pv.take(i as int)) == Some(views(r@)),
        decreases parts@.len() - i,
    {
        assert(pv.take(i + 1).drop_last() =~= pv.take(i as int));
        assert(pv.take(i + 1).last() == parts@[i as int]@);
        match unquote_part(parts[i].as_slice()) {
            Some(p) => {
                let ghost prev = views(r@);
                r.push(p);
                assert(views(r@) =~= prev.push(r@.last()@));
            },
            None => {
                proof {
                    lemma_unquote_all_none_extends(pv, (i + 1) as int);
                }
                assert(pv.take(parts@.len() as int) =~= pv);
                return None;
            },
        }
        i += 1;
    }
    assert(pv.take(parts@.len() as int) =~= pv);
    Some(r)
}

/// Once a prefix fails to unquote, every longer prefix fails too.
proof fn lemma_unquote_all_none_extends(s: Seq<Seq<char>>, i: int)
    requires
        0 <= i <= s.len(),
        unquote_all(s.take(i)) is None,
    ensures
        unquote_all(s) is None,
    decreases s.len() - i,
{
    if i < s.len() {
        assert(s.take(i + 1).drop_last() =~= s.take(i));
        lemma_unquote_all_none_extends(s, i + 1);
    } else {
        assert(s.take(i) =~= s);
    }
}

impl RawOutputPaths {
    /// The paths an output entry names: a list as it is; one string either
    /// as a quoted, comma-separated list or as a single path.
    pub fn into_paths(self) -> (r: Vec<String>)
        ensures
            views(r@) == output_paths(self),
    {
        match self {
            RawOutputPaths::One(path) => match parse_quoted_path_list(path.as_str()) {
                Some(ps) => ps,
                None => {
                    let mut v: Vec<String> = Vec::new();
                    let ghost pv = path@;
                    v.push(path);
                    assert(views(v@) =~= seq![pv]);
                    v
                },
            },
            RawOutputPaths::Many(paths) => paths,
        }
    }
}

/// Whether a source with this id has been accepted.
fn is_known_source(sources: &Vec<SourceConfig>, id: &String) -> (b: bool)
    ensures
        b == source_ids_of(source_views(sources@)).contains(id@),
{
    let ghost ids = source_views(sources@).map_values(|s: SourceView| s.id);
    let mut i: usize = 0;
    while i < sources.len()
        invariant
            ids == source_views(sources@).map_values(|s: SourceView| s.id),
            i <= sources@.len(),
            forall|k: int| 0 <= k < i ==> ids[k] != id@,
        decreases sources@.len() - i,
    {
        if sources[i].id == *id {
            assert(ids[i as int] == id@);
            return true;
        }
        i += 1;
    }
    false
}

/// A copy of a vector of strings with the same contents.
fn copy_strings(v: &Vec<String>) -> (r: Vec<String>)
    ensures
        views(r@) == views(v@),
{
    let mut r: Vec<String> = Vec::new();
    let mut i: usize = 0;
    while i < v.len()
        invariant
            i <= v@.len(),
            views(r@) == views(v@).take(i as int),
        decreases v@.len() - i,
    {
        let ghost prev = views(r@);
        let s = v[i].clone();
        r.push(s);
        assert(views(r@) =~= prev.push(v@[i as int]@));
        assert(views(r@) =~= views(v@).take(i + 1));
        i += 1;
    }
    assert(views(v@).take(v@.len() as int) =~= views(v@));
    r
}

impl OutputConfig {
    /// A copy with the same contents.
    pub fn duplicate(&self) -> (r: OutputConfig)
        ensures
            r@ == self@,
    {
        OutputConfig {
            group: self.group.clone(),
            source_ids: copy_strings(&self.source_ids),
            path: self.path.clone(),
            key_format: self.key_format,
        }
    }
}

/// Checks the entry of one output and appends its outputs, one per path.
fn check_output_entry(
    group: String,
    raw_paths: RawOutputPaths,
    sources: &Vec<SourceConfig>,
    outputs: &mut Vec<OutputConfig>,
) -> (r: Result<(), ConfigError>)
    ensures
        match check_output(group@, output_paths(raw_paths), source_ids_of(source_views(sources@))) {
            Err(e) => r matches Err(x) && x@ == e,
            Ok(os) => r is Ok && output_views(final(outputs)@) == output_views(old(outputs)@) + os,
        },
{
    let ghost known = source_ids_of(source_views(sources@));
    let ghost paths_spec = output_paths(raw_paths);
    let source_ids = parse_output_group(group.as_str());
    let ghost ids = views(source_ids@);
    if source_ids.len() == 0 {
        return Err(ConfigError::EmptyOutputGroup { group });
    }
    let mut i: usize = 0;
    while i < source_ids.len()
        invariant
            ids == views(source_ids@),
            ids == output_group_ids(group@),
            ids.len() > 0,
            known == source_ids_of(source_views(sources@)),
            i <= ids.len(),
            first_unknown(ids, known) == first_unknown(ids.skip(i as int), known),
        decreases ids.len() - i,
    {
        assert(ids.skip(i as int)[0] == ids[i as int]);
        if !is_known_source(sources, &source_ids[i]) {
            assert(first_unknown(ids.skip(i as int), known) == Some(ids[i as int]));
            let sid = source_ids[i].clone();
            assert(check_output(group@, paths_spec, known) == Err::<Seq<OutputView>, ConfigErrorView>(
                ConfigErrorView::UnknownOutputSource { group: group@, source_id: sid@ },
            ));
            return Err(ConfigError::UnknownOutputSource { group, source_id: sid });
        }
        assert(ids.skip(i as int).drop_first() =~= ids.skip(i + 1));
        i += 1;
    }
    assert(first_unknown(ids.skip(ids.len() as int), known) is None);
    let paths = raw_paths.into_paths();
    if paths.len() == 0 {
        return Err(ConfigError::EmptyOutputPath { group });
    }
    let ghost old_outputs = output_views(outputs@);
    let ghost pv = views(paths@);
    let mut j: usize = 0;
    while j < paths.len()
        invariant
            pv == views(paths@),
            pv == paths_spec,
            paths_spec == output_paths(raw_paths),
            ids == views(source_ids@),
            ids == output_group_ids(group@),
            ids.len() > 0,
            known == source_ids_of(source_views(sources@)),
            first_unknown(ids, known) is None,
            pv.len() > 0,
            j <= paths@.len(),
            forall|k: int| 0 <= k < j ==> trim(#[trigger] pv[k]).len() != 0,
            output_views(outputs@) == old_outputs + pv.take(j as int).map_values(
                |p: Seq<char>|
                    OutputView {
                        group: group@,
                        source_ids: ids,
                        path: p,
                        key_format: OutputKeyFormat::Wire,
                    },
            ),
        decreases paths@.len() - j,
    {
        let t = trim_chars(chars_of(paths[j].as_str()).as_slice());
        assert(t@ == trim(pv[j as int]));
        if t.len() == 0 {
            assert(trim(paths_spec[j as int]).len() == 0);
            assert(check_output(group@, paths_spec, known) == Err::<Seq<OutputView>, ConfigErrorView>(
                ConfigErrorView::EmptyOutputPath { group: group@ },
            ));
            return Err(ConfigError::EmptyOutputPath { group });
        }
        let ghost prev = output_views(outputs@);
        let o = OutputConfig {
            group: group.clone(),
            source_ids: copy_strings(&source_ids),
            path: paths[j].clone(),
            key_format: OutputKeyFormat::Wire,
        };
        outputs.push(o);
        assert(output_views(outputs@) =~= prev.push(o@));
        assert(output_views(outputs@) =~= old_outputs + pv.take(j + 1).map_values(
            |p: Seq<char>|
                OutputView {
                    group: group@,
                    source_ids: ids,
                    path: p,
                    key_format: OutputKeyFormat::Wire,
                },
        ));
        j += 1;
    }
    assert(pv.take(paths@.len() as int) =~= pv);
    Ok(())
}

impl Config {
    /// Validates the decoded configuration tables.
    pub fn from_raw(raw: RawConfig) -> (r: Result<Config, ConfigError>)
        requires
            raw_keys_sorted(raw),
        ensures
            match config_spec(raw) {
                Err(e) => r matches Err(x) && x@ == e,
                Ok((ss, os)) => r matches Ok(c) && source_views(c.sources@) == ss && output_views(
                    c.outputs@,
                ) == os,
            },
            r matches Ok(c) ==> strictly_sorted(
                source_views(c.sources@).map_values(|s: SourceView| s.id),
            ),
    {
        let raw_sources = match raw.sources {
            Some(s) => s,
            None => {
                return Err(ConfigError::EmptySources);
            },
        };
        let raw_outputs = match raw.outputs {
            Some(o) => o,
            None => {
                return Err(ConfigError::EmptyOutputs);
            },
        };
        if raw_sources.len() == 0 {
            return Err(ConfigError::EmptySources);
        }
        if raw_outputs.len() == 0 {
            return Err(ConfigError::EmptyOutputs);
        }
        let ghost rs = raw_sources@;
        let ghost ro = raw_outputs@;
        assert(config_spec(raw) == after_sources(check_sources(rs), ro));
        let mut sources: Vec<SourceConfig> = Vec::new();
        let mut i: usize = 0;
        assert(rs.take(0) =~= Seq::<(String, String)>::empty());
        assert(source_views(sources@) =~= Seq::<SourceView>::empty());
        while i < raw_sources.len()
            invariant
                rs == raw_sources@,
                config_spec(raw) == after_sources(check_sources(rs), ro),
                i <= rs.len(),
                check_sources(rs.take(i as int)) == Ok::<Seq<SourceView>, ConfigErrorView>(
                    source_views(sources@),
                ),
            decreases rs.len() - i,
        {
            assert(rs.take(i + 1).drop_last() =~= rs.take(i as int));
            let id = raw_sources[i].0.clone();
            let url = raw_sources[i].1.clone();
            assert(rs.take(i + 1).last() == rs[i as int]);
            assert(id@ == rs[i as int].0@ && url@ == rs[i as int].1@);
            if !is_valid_source_id(id.as_str()) {
                assert(check_sources(rs.take(i + 1)) == Err::<Seq<SourceView>, ConfigErrorView>(
                    ConfigErrorView::InvalidSourceId(id@),
                ));
                proof {
                    lemma_check_sources_err_extends(rs, (i + 1) as int);
                }
                return Err(ConfigError::InvalidSourceId(id));
            }
            match parse_url(url.as_str()) {
                None => {
                    assert(check_sources(rs.take(i + 1)) == Err::<Seq<SourceView>, ConfigErrorView>(
                        ConfigErrorView::InvalidUrl { source_id: id@, url: url@ },
                    ));
                    proof {
                        lemma_check_sources_err_extends(rs, (i + 1) as int);
                    }
                    return Err(ConfigError::InvalidUrl { source_id: id, url });
                },
                Some((scheme, serialized)) => {
                    let sc = chars_of(scheme.as_str());
                    let is_http = crate::text::eq_str(sc.as_slice(), "http")
                        || crate::text::eq_str(sc.as_slice(), "https");
                    if !is_http {
                        assert(check_sources(rs.take(i + 1)) == Err::<
                            Seq<SourceView>,
                            ConfigErrorView,
                        >(ConfigErrorView::UnsupportedScheme { source_id: id@, scheme: scheme@ }));
                        proof {
                            lemma_check_sources_err_extends(rs, (i + 1) as int);
                        }
                        return Err(ConfigError::UnsupportedScheme { source_id: id, scheme });
                    }
                    let ghost prev = source_views(sources@);
                    let s = SourceConfig { id, url: serialized };
                    sources.push(s);
                    assert(source_views(sources@) =~= prev.push(s@));
                    assert(check_sources(rs.take(i + 1)) == Ok::<Seq<SourceView>, ConfigErrorView>(
                        source_views(sources@),
                    ));
                },
            }
            i += 1;
        }
        assert(rs.take(rs.len() as int) =~= rs);
        let ghost ss = source_views(sources@);
        let ghost known = source_ids_of(ss);
        let mut outputs: Vec<OutputConfig> = Vec::new();
        let mut raw_outputs = raw_outputs;
        let mut pending: Vec<(String, RawOutputPaths)> = Vec::new();
        // Visit the entries in order: reverse them once, then pop.
        while raw_outputs.len() > 0
            invariant
                ro.len() > 0,
                raw_outputs@.len() <= ro.len(),
                pending@ + raw_outputs@.reverse() == ro.reverse(),
            decreases raw_outputs@.len(),
        {
            let ghost before = raw_outputs@;
            let e = raw_outputs.pop().unwrap();
            pending.push(e);
            assert(before =~= raw_outputs@.push(e));
            assert(before.reverse() =~= seq![e] + raw_outputs@.reverse());
            assert(pending@ + raw_outputs@.reverse() =~= ro.reverse());
        }
        assert(pending@ =~= ro.reverse());
        let mut done: usize = 0;
        let n = pending.len();
        assert(ro.take(0) =~= Seq::<(String, RawOutputPaths)>::empty());
        assert(output_views(outputs@) =~= Seq::<OutputView>::empty());
        assert(check_sources(rs) == Ok::<Seq<SourceView>, ConfigErrorView>(ss));
        while pending.len() > 0
            invariant
                config_spec(raw) == after_sources(check_sources(rs), ro),
                check_sources(rs) == Ok::<Seq<SourceView>, ConfigErrorView>(ss),
                n == ro.len(),
                ss == source_views(sources@),
                known == source_ids_of(ss),
                pending@.len() + done == n,
                forall|k: int| 0 <= k < pending@.len() ==> #[trigger] pending@[k] == ro[n - 1 - k],
                check_outputs(ro.take(done as int), known) == Ok::<
                    Seq<OutputView>,
                    ConfigErrorView,
                >(output_views(outputs@)),
            decreases pending@.len(),
        {
            let ghost before = pending@;
            let ghost old_out = output_views(outputs@);
            let (group, raw_paths) = pending.pop().unwrap();
            assert(before.last() == ro[done as int]);
            assert(ro.take(done + 1).drop_last() =~= ro.take(done as int));
            assert(ro.take(done + 1).last() == ro[done as int]);
            let ghost entry = check_output(group@, output_paths(raw_paths), known);
            match check_output_entry(group, raw_paths, &sources, &mut outputs) {
                Err(e) => {
                    assert(entry == Err::<Seq<OutputView>, ConfigErrorView>(e@));
                    assert(check_outputs(ro.take(done + 1), known) == Err::<
                        Seq<OutputView>,
                        ConfigErrorView,
                    >(e@));
                    proof {
                        lemma_check_outputs_err_extends(ro, known, (done + 1) as int);
                    }
                    return Err(e);
                },
                Ok(()) => {
                    assert(check_outputs(ro.take(done + 1), known) == Ok::<
                        Seq<OutputView>,
                        ConfigErrorView,
                    >(output_views(outputs@)));
                },
            }
            done += 1;
        }
        assert(ro.take(done as int) =~= ro);
        proof {
            law_from_raw_result(raw);
        }
        Ok(Config { sources, outputs })
    }

    /// Every source id that some output names.
    pub fn selected_source_ids(&self) -> (r: StringSet)
        ensures
            r@ == all_output_ids(self.outputs@).to_set(),
            forall|id: Seq<char>| #[trigger]
                r@.contains(id) <==> exists|k: int|
                    0 <= k < self.outputs@.len() && #[trigger] views(
                        self.outputs@[k].source_ids@,
                    ).contains(id),
    {
        proof {
            assert forall|id: Seq<char>| #[trigger]
                all_output_ids(self.outputs@).to_set().contains(id) <==> exists|k: int|
                    0 <= k < self.outputs@.len() && #[trigger] views(
                        self.outputs@[k].source_ids@,
                    ).contains(id) by {
                lemma_selected_ids(self.outputs@, id);
            }
        }
        let mut all: Vec<String> = Vec::new();
        let mut k: usize = 0;
        while k < self.outputs.len()
            invariant
                k <= self.outputs@.len(),
                views(all@) == all_output_ids(self.outputs@.take(k as int)),
            decreases self.outputs@.len() - k,
        {
            let ids = &self.outputs[k].source_ids;
            let ghost before = views(all@);
            let mut i: usize = 0;
            while i < ids.len()
                invariant
                    i <= ids@.len(),
                    views(all@) == before + views(ids@).take(i as int),
                decreases ids@.len() - i,
            {
                let ghost prev = views(all@);
                let s = ids[i].clone();
                all.push(s);
                assert(views(all@) =~= prev.push(ids@[i as int]@));
                assert(views(all@) =~= before + views(ids@).take(i + 1));
                i += 1;
            }
            assert(views(ids@).take(ids@.len() as int) =~= views(ids@));
            assert(self.outputs@.take(k + 1).drop_last() =~= self.outputs@.take(k as int));
            k += 1;
        }
        assert(self.outputs@.take(self.outputs@.len() as int) =~= self.outputs@);
        StringSet::from_vec(all)
    }
}

/// The source ids of the outputs, in order, repeats included.
pub open spec fn all_output_ids(outputs: Seq<OutputConfig>) -> Seq<Seq<char>>
    decreases outputs.len(),
{
    if outputs.len() == 0 {
        seq![]
    } else {
        all_output_ids(outputs.drop_last()) + views(outputs.last().source_ids@)
    }
}

/// An id is selected exactly when some output names it.
pub proof fn lemma_selected_ids(outputs: Seq<OutputConfig>, id: Seq<char>)
    ensures
        all_output_ids(outputs).contains(id) <==> exists|k: int|
            0 <= k < outputs.len() && #[trigger] views(outputs[k].source_ids@).contains(id),
    decreases outputs.len(),
{
    if outputs.len() > 0 {
        let front = outputs.drop_last();
        lemma_selected_ids(front, id);
        let a = all_output_ids(front);
        let b = views(outputs.last().source_ids@);
        if (a + b).contains(id) {
            let x = choose|x: int| 0 <= x < (a + b).len() && (a + b)[x] == id;
            if x < a.len() {
                assert(a.contains(id));
                let k = choose|k: int| 0 <= k < front.len() && #[trigger] views(front[k].source_ids@).contains(id);
                assert(outputs[k] == front[k]);
            } else {
                assert(b[x - a.len()] == id);
                assert(views(outputs[outputs.len() - 1].source_ids@).contains(id));
            }
        }
        if exists|k: int| 0 <= k < outputs.len() && #[trigger] views(outputs[k].source_ids@).contains(id) {
            let k = choose|k: int| 0 <= k < outputs.len() && #[trigger] views(outputs[k].source_ids@).contains(id);
            if k < outputs.len() - 1 {
                assert(front[k] == outputs[k]);
                assert(a.contains(id));
                let x = choose|x: int| 0 <= x < a.len() && a[x] == id;
                assert((a + b)[x] == id);
            } else {
                let x = choose|x: int| 0 <= x < b.len() && b[x] == id;
                assert((a + b)[a.len() + x] == id);
            }
        }
    }
}

proof fn lemma_check_sources_err_extends(rs: Seq<(String, String)>, i: int)
    requires
        0 < i <= rs.len(),
        check_sources(rs.take(i)) is Err,
    ensures
        check_sources(rs) == check_sources(rs.take(i)),
    decreases rs.len() - i,
{
    if i < rs.len() {
        assert(rs.take(i + 1).drop_last() =~= rs.take(i));
        lemma_check_sources_err_extends(rs, i + 1);
    } else {
        assert(rs.take(i) =~= rs);
    }
}

proof fn lemma_check_outputs_err_extends(
    ro: Seq<(String, RawOutputPaths)>,
    known: Set<Seq<char>>,
    i: int,
)
    requires
        0 < i <= ro.len(),
        check_outputs(ro.take(i), known) is Err,
    ensures
        check_outputs(ro, known) == check_outputs(ro.take(i), known),
    decreases ro.len() - i,
{
    if i < ro.len() {
        assert(ro.take(i + 1).drop_last() =~= ro.take(i));
        lemma_check_outputs_err_extends(ro, known, i + 1);
    } else {
        assert(ro.take(i) =~= ro);
    }
}

} // verus!

verus! {

/// A checked source has a valid id.
proof fn lemma_check_sources_valid(raw: Seq<(String, String)>)
    ensures
        check_sources(raw) matches Ok(ss) ==> forall|i: int|
            0 <= i < ss.len() ==> valid_source_id(#[trigger] ss[i].id),
    decreases raw.len(),
{
    if raw.len() > 0 {
        lemma_check_sources_valid(raw.drop_last());
    }
}

/// Every checked output names at least one source, all of them known.
proof fn lemma_check_outputs_known(raw: Seq<(String, RawOutputPaths)>, known: Set<Seq<char>>)
    ensures
        check_outputs(raw, known) matches Ok(os) ==> forall|i: int|
            0 <= i < os.len() ==> (#[trigger] os[i]).source_ids.len() > 0 && forall|j: int|
                0 <= j < os[i].source_ids.len() ==> known.contains(#[trigger] os[i].source_ids[j]),
    decreases raw.len(),
{
    if raw.len() > 0 {
        lemma_check_outputs_known(raw.drop_last(), known);
        let ids = output_group_ids(raw.last().0@);
        lemma_first_unknown_none(ids, known);
        if let Ok(done) = check_outputs(raw.drop_last(), known) {
            if let Ok(os) = check_output(raw.last().0@, output_paths(raw.last().1), known) {
                let all = done + os;
                assert forall|i: int| 0 <= i < all.len() implies (#[trigger] all[i]).source_ids.len() > 0
                    && forall|j: int|
                    0 <= j < all[i].source_ids.len() ==> known.contains(#[trigger] all[i].source_ids[j]) by {
                    if i >= done.len() {
                        assert(all[i] == os[i - done.len()]);
                    }
                }
            }
        }
    }
}

proof fn lemma_first_unknown_none(ids: Seq<Seq<char>>, known: Set<Seq<char>>)
    ensures
        first_unknown(ids, known) is None <==> forall|j: int| 0 <= j < ids.len() ==> known.contains(#[trigger] ids[j]),
    decreases ids.len(),
{
    if ids.len() > 0 {
        lemma_first_unknown_none(ids.drop_first(), known);
        if forall|j: int| 0 <= j < ids.len() ==> known.contains(#[trigger] ids[j]) {
            assert(known.contains(ids[0]));
            assert forall|j: int| 0 <= j < ids.drop_first().len() implies known.contains(
                #[trigger] ids.drop_first()[j],
            ) by {
                assert(ids.drop_first()[j] == ids[j + 1]);
            }
        }
        if first_unknown(ids, known) is None {
            assert forall|j: int| 0 <= j < ids.len() implies known.contains(#[trigger] ids[j]) by {
                if j > 0 {
                    assert(ids[j] == ids.drop_first()[j - 1]);
                }
            }
        }
    }
}

/// A valid configuration has at least one source and one output; each
/// source comes from the entry at the same place, with an id matching
/// `^[a-zA-Z0-9_-]+$` and an `http` or `https` URL; each output names at
/// least one source and only configured ones.
pub proof fn law_valid_config(raw: RawConfig)
    ensures
        config_spec(raw) matches Ok((ss, os)) ==> {
            &&& ss.len() > 0
            &&& os.len() > 0
            &&& raw.sources matches Some(rs) && ss.len() == rs@.len()
            &&& forall|i: int| 0 <= i < ss.len() ==> valid_source_id(#[trigger] ss[i].id)
            &&& forall|i: int|
                0 <= i < ss.len() ==> source_from_entry(#[trigger] ss[i], raw.sources.unwrap()@[i])
            &&& forall|i: int|
                0 <= i < os.len() ==> (#[trigger] os[i]).source_ids.len() > 0 && forall|j: int|
                    0 <= j < os[i].source_ids.len() ==> source_ids_of(ss).contains(
                        #[trigger] os[i].source_ids[j],
                    )
        },
{
    if let (Some(rs), Some(ro)) = (raw.sources, raw.outputs) {
        lemma_check_sources_valid(rs@);
        lemma_check_sources_len(rs@);
        lemma_check_sources_entries(rs@);
        if let Ok(ss) = check_sources(rs@) {
            lemma_check_outputs_known(ro@, source_ids_of(ss));
        }
    }
}

/// `s` is what the entry `(id, url)` validates to: the same id, and the
/// serialisation of a URL whose scheme is `http` or `https`.
pub open spec fn source_from_entry(s: SourceView, entry: (String, String)) -> bool {
    &&& s.id == entry.0@
    &&& url_parse(entry.1@) matches Some((scheme, serialized))
    &&& serialized == s.url
    &&& (scheme == "http"@ || scheme == "https"@)
}

proof fn lemma_check_sources_entries(raw: Seq<(String, String)>)
    ensures
        check_sources(raw) matches Ok(ss) ==> forall|i: int|
            0 <= i < ss.len() && i < raw.len() ==> source_from_entry(#[trigger] ss[i], raw[i]),
    decreases raw.len(),
{
    if raw.len() > 0 {
        lemma_check_sources_entries(raw.drop_last());
        lemma_check_sources_len(raw.drop_last());
        if let (Ok(ss), Ok(done)) = (check_sources(raw), check_sources(raw.drop_last())) {
            assert forall|i: int| 0 <= i < ss.len() && i < raw.len() implies source_from_entry(
                #[trigger] ss[i],
                raw[i],
            ) by {
                if i < done.len() {
                    assert(ss[i] == done[i]);
                    assert(raw[i] == raw.drop_last()[i]);
                }
            }
        }
    }
}

proof fn lemma_check_sources_len(raw: Seq<(String, String)>)
    ensures
        check_sources(raw) matches Ok(ss) ==> ss.len() == raw.len(),
    decreases raw.len(),
{
    if raw.len() > 0 {
        lemma_check_sources_len(raw.drop_last());
    }
}

} // verus!

verus! {

/// An entry of `[sources]` that validates: its id matches
/// `^[a-zA-Z0-9_-]+$` and its URL parses with scheme `http` or `https`.
pub open spec fn source_ok(id: Seq<char>, url: Seq<char>) -> bool {
    &&& valid_source_id(id)
    &&& url_parse(url) is Some
    &&& (url_parse(url).unwrap().0 == "http"@ || url_parse(url).unwrap().0 == "https"@)
}

/// An entry of `[outputs]` that validates against the known ids: its group
/// names at least one source, all known, and it has at least one path,
/// none of them blank.
pub open spec fn output_ok(group: Seq<char>, paths: Seq<Seq<char>>, known: Set<Seq<char>>) -> bool {
    &&& output_group_ids(group).len() > 0
    &&& forall|k: int|
        0 <= k < output_group_ids(group).len() ==> known.contains(#[trigger] output_group_ids(group)[k])
    &&& paths.len() > 0
    &&& forall|k: int| 0 <= k < paths.len() ==> trim(#[trigger] paths[k]).len() > 0
}

/// The sources a valid `[sources]` table gives: each key with the
/// serialisation of its URL, in order.
pub open spec fn sources_of(rs: Seq<(String, String)>) -> Seq<SourceView> {
    rs.map_values(|e: (String, String)| SourceView { id: e.0@, url: url_parse(e.1@).unwrap().1 })
}

/// The outputs one entry of `[outputs]` gives: one per path, each naming
/// the group's sources.
pub open spec fn entry_outputs(group: Seq<char>, paths: Seq<Seq<char>>) -> Seq<OutputView> {
    paths.map_values(
        |p: Seq<char>|
            OutputView {
                group,
                source_ids: output_group_ids(group),
                path: p,
                key_format: OutputKeyFormat::Wire,
            },
    )
}

/// The outputs a valid `[outputs]` table gives, entry by entry, in order.
pub open spec fn outputs_of(ro: Seq<(String, RawOutputPaths)>) -> Seq<OutputView>
    decreases ro.len(),
{
    if ro.len() == 0 {
        seq![]
    } else {
        outputs_of(ro.drop_last()) + entry_outputs(ro.last().0@, output_paths(ro.last().1))
    }
}

proof fn lemma_check_sources_ok(rs: Seq<(String, String)>)
    ensures
        check_sources(rs) is Ok <==> forall|i: int|
            0 <= i < rs.len() ==> source_ok(#[trigger] rs[i].0@, rs[i].1@),
        check_sources(rs) is Ok ==> check_sources(rs) == Ok::<Seq<SourceView>, ConfigErrorView>(
            sources_of(rs),
        ),
    decreases rs.len(),
{
    if rs.len() > 0 {
        let front = rs.drop_last();
        lemma_check_sources_ok(front);
        assert forall|i: int| 0 <= i < front.len() implies #[trigger] front[i] == rs[i] by {}
        if forall|i: int| 0 <= i < rs.len() ==> source_ok(#[trigger] rs[i].0@, rs[i].1@) {
            assert forall|i: int| 0 <= i < front.len() implies source_ok(
                #[trigger] front[i].0@,
                front[i].1@,
            ) by {
                assert(front[i] == rs[i]);
            }
            assert(source_ok(rs[rs.len() - 1].0@, rs[rs.len() - 1].1@));
        }
        assert(sources_of(rs) =~= sources_of(front).push(
            SourceView { id: rs.last().0@, url: url_parse(rs.last().1@).unwrap().1 },
        ));
        if check_sources(rs) is Ok {
            assert(check_source(rs.last().0@, rs.last().1@) == Ok::<SourceView, ConfigErrorView>(
                SourceView { id: rs.last().0@, url: url_parse(rs.last().1@).unwrap().1 },
            ));
        }
        if check_sources(rs) is Ok {
            assert(check_sources(front) is Ok);
            assert(source_ok(rs.last().0@, rs.last().1@));
            assert forall|i: int| 0 <= i < rs.len() implies source_ok(
                #[trigger] rs[i].0@,
                rs[i].1@,
            ) by {
                if i < front.len() {
                    assert(front[i] == rs[i]);
                    assert(source_ok(front[i].0@, front[i].1@));
                } else {
                    assert(rs[i] == rs.last());
                }
            }
        }
    } else {
        assert(sources_of(rs) =~= Seq::<SourceView>::empty());
    }
}

proof fn lemma_check_outputs_ok(ro: Seq<(String, RawOutputPaths)>, known: Set<Seq<char>>)
    ensures
        check_outputs(ro, known) is Ok <==> forall|j: int|
            0 <= j < ro.len() ==> output_ok(#[trigger] ro[j].0@, output_paths(ro[j].1), known),
        check_outputs(ro, known) is Ok ==> check_outputs(ro, known) == Ok::<
            Seq<OutputView>,
            ConfigErrorView,
        >(outputs_of(ro)),
    decreases ro.len(),
{
    if ro.len() > 0 {
        let front = ro.drop_last();
        let last = ro.last();
        lemma_check_outputs_ok(front, known);
        lemma_first_unknown_none(output_group_ids(last.0@), known);
        let paths = output_paths(last.1);
        let ok_last = output_ok(last.0@, paths, known);
        assert(check_output(last.0@, paths, known) is Ok <==> ok_last) by {
            if paths.len() > 0 && exists|i: int| 0 <= i < paths.len() && trim(#[trigger] paths[i]).len() == 0 {
                let i = choose|i: int| 0 <= i < paths.len() && trim(#[trigger] paths[i]).len() == 0;
                assert(!ok_last);
            }
        }
        if ok_last {
            assert(check_output(last.0@, paths, known) == Ok::<Seq<OutputView>, ConfigErrorView>(
                entry_outputs(last.0@, paths),
            ));
        }
        assert forall|i: int| 0 <= i < front.len() implies #[trigger] front[i] == ro[i] by {}
        if forall|j: int| 0 <= j < ro.len() ==> output_ok(#[trigger] ro[j].0@, output_paths(ro[j].1), known) {
            assert forall|j: int| 0 <= j < front.len() implies output_ok(
                #[trigger] front[j].0@,
                output_paths(front[j].1),
                known,
            ) by {
                assert(front[j] == ro[j]);
            }
            assert(ro[ro.len() - 1] == last);
        }
        if check_outputs(ro, known) is Ok {
            assert(check_outputs(front, known) is Ok);
            assert forall|j: int| 0 <= j < ro.len() implies output_ok(
                #[trigger] ro[j].0@,
                output_paths(ro[j].1),
                known,
            ) by {
                if j < front.len() {
                    assert(front[j] == ro[j]);
                    assert(output_ok(front[j].0@, output_paths(front[j].1), known));
                } else {
                    assert(ro[j] == last);
                }
            }
        }
    }
}

/// The ids of the sources a valid table gives are its keys.
proof fn lemma_sources_of_ids(rs: Seq<(String, String)>)
    ensures
        sources_of(rs).map_values(|s: SourceView| s.id) == raw_source_keys(rs),
        source_ids_of(sources_of(rs)) == raw_source_keys(rs).to_set(),
{
    assert(sources_of(rs).map_values(|s: SourceView| s.id) =~= raw_source_keys(rs));
}

/// `from_raw` succeeds exactly when both tables are present and non-empty,
/// every source has a valid id and an `http` or `https` URL, and every
/// output group names at least one source, all of them configured, with at
/// least one path and no blank path.
pub proof fn law_from_raw_succeeds_iff(raw: RawConfig)
    ensures
        config_spec(raw) is Ok <==> {
            &&& raw.sources is Some
            &&& raw.outputs is Some
            &&& raw.sources.unwrap()@.len() > 0
            &&& raw.outputs.unwrap()@.len() > 0
            &&& forall|i: int|
                0 <= i < raw.sources.unwrap()@.len() ==> source_ok(
                    #[trigger] raw.sources.unwrap()@[i].0@,
                    raw.sources.unwrap()@[i].1@,
                )
            &&& forall|j: int|
                0 <= j < raw.outputs.unwrap()@.len() ==> output_ok(
                    #[trigger] raw.outputs.unwrap()@[j].0@,
                    output_paths(raw.outputs.unwrap()@[j].1),
                    raw_source_keys(raw.sources.unwrap()@).to_set(),
                )
        },
{
    if let (Some(rs), Some(ro)) = (raw.sources, raw.outputs) {
        lemma_check_sources_ok(rs@);
        lemma_sources_of_ids(rs@);
        lemma_check_outputs_ok(ro@, raw_source_keys(rs@).to_set());
    }
}

/// On success the sources are the `[sources]` entries in order, each with
/// its key as id and the serialisation of its URL, and the outputs are one
/// per path, entry by entry of `[outputs]` in order, each naming the
/// sources of its group.
pub proof fn law_from_raw_result(raw: RawConfig)
    ensures
        config_spec(raw) matches Ok((ss, os)) ==> {
            &&& ss == sources_of(raw.sources.unwrap()@)
            &&& ss.map_values(|s: SourceView| s.id) == raw_source_keys(raw.sources.unwrap()@)
            &&& os == outputs_of(raw.outputs.unwrap()@)
        },
{
    if let (Some(rs), Some(ro)) = (raw.sources, raw.outputs) {
        lemma_check_sources_ok(rs@);
        lemma_sources_of_ids(rs@);
        lemma_check_outputs_ok(ro@, raw_source_keys(rs@).to_set());
    }
}

} // verus!

verus! {

/// `p` between single quotes.
pub open spec fn quoted(p: Seq<char>) -> Seq<char> {
    seq!['\''] + p + seq!['\'']
}

/// The paths quoted and joined by `", "`: `'a', 'b', ...`.
pub open spec fn quote_join(ps: Seq<Seq<char>>) -> Seq<char>
    decreases ps.len(),
{
    if ps.len() == 0 {
        seq![]
    } else if ps.len() == 1 {
        quoted(ps[0])
    } else {
        quote_join(ps.drop_last()) + seq![','] + (seq![' '] + quoted(ps.last()))
    }
}

/// The pieces `quote_join(ps)` splits into at its commas.
pub open spec fn quoted_parts(ps: Seq<Seq<char>>) -> Seq<Seq<char>>
    decreases ps.len(),
{
    if ps.len() <= 1 {
        ps.map_values(|p: Seq<char>| quoted(p))
    } else {
        quoted_parts(ps.drop_last()).push(seq![' '] + quoted(ps.last()))
    }
}

proof fn lemma_unquote_quoted(p: Seq<char>)
    ensures
        unquote(quoted(p)) == Some(p),
        unquote(seq![' '] + quoted(p)) == Some(p),
{
    let q = quoted(p);
    assert(q[0] == '\'');
    assert(q.last() == '\'');
    lemma_trim_unpadded(q);
    assert(q.subrange(1, q.len() - 1) =~= p);
}

proof fn lemma_quote_join_split(ps: Seq<Seq<char>>)
    requires
        ps.len() >= 1,
        forall|i: int| 0 <= i < ps.len() ==> !(#[trigger] ps[i]).contains(','),
    ensures
        split(quote_join(ps), ',') == quoted_parts(ps),
    decreases ps.len(),
{
    if ps.len() == 1 {
        let q = quoted(ps[0]);
        assert(!q.contains(',')) by {
            if q.contains(',') {
                let k = choose|k: int| 0 <= k < q.len() && q[k] == ',';
                assert(ps[0][k - 1] == ',');
                assert(ps[0].contains(','));
            }
        }
        lemma_split_without(q, ',');
        assert(quoted_parts(ps) =~= seq![q]);
    } else {
        let init = ps.drop_last();
        assert forall|i: int| 0 <= i < init.len() implies !(#[trigger] init[i]).contains(',') by {
            assert(init[i] == ps[i]);
        }
        lemma_quote_join_split(init);
        let b = seq![' '] + quoted(ps.last());
        assert(!b.contains(',')) by {
            if b.contains(',') {
                let k = choose|k: int| 0 <= k < b.len() && b[k] == ',';
                assert(ps.last()[k - 2] == ',');
                assert(ps[ps.len() - 1].contains(','));
            }
        }
        lemma_split_without(b, ',');
        lemma_split_concat(quote_join(init), b, ',', 0);
    }
}

proof fn lemma_quoted_parts_len(ps: Seq<Seq<char>>)
    ensures
        quoted_parts(ps).len() == ps.len(),
    decreases ps.len(),
{
    if ps.len() > 1 {
        lemma_quoted_parts_len(ps.drop_last());
    }
}

proof fn lemma_unquote_parts(ps: Seq<Seq<char>>)
    requires
        ps.len() >= 1,
    ensures
        unquote_all(quoted_parts(ps)) == Some(ps),
    decreases ps.len(),
{
    let qp = quoted_parts(ps);
    if ps.len() == 1 {
        let p = ps[0];
        lemma_unquote_quoted(p);
        assert(qp =~= seq![quoted(p)]);
        assert(qp.drop_last() =~= Seq::<Seq<char>>::empty());
        assert(unquote_all(qp.drop_last()) == Some(Seq::<Seq<char>>::empty()));
        assert(Seq::<Seq<char>>::empty().push(p) =~= ps);
    } else {
        let init = ps.drop_last();
        let p = ps.last();
        lemma_unquote_parts(init);
        lemma_unquote_quoted(p);
        assert(qp == quoted_parts(init).push(seq![' '] + quoted(p)));
        assert(qp.drop_last() =~= quoted_parts(init));
        assert(init.push(p) =~= ps);
    }
}

proof fn lemma_unquote_all_none(parts: Seq<Seq<char>>)
    ensures
        unquote_all(parts) is None <==> exists|i: int|
            0 <= i < parts.len() && unquote(#[trigger] parts[i]) is None,
    decreases parts.len(),
{
    if parts.len() > 0 {
        let init = parts.drop_last();
        lemma_unquote_all_none(init);
        if exists|i: int| 0 <= i < init.len() && unquote(#[trigger] init[i]) is None {
            let i = choose|i: int| 0 <= i < init.len() && unquote(#[trigger] init[i]) is None;
            assert(parts[i] == init[i]);
        }
        if exists|i: int| 0 <= i < parts.len() && unquote(#[trigger] parts[i]) is None {
            let i = choose|i: int| 0 <= i < parts.len() && unquote(#[trigger] parts[i]) is None;
            if i < init.len() {
                assert(init[i] == parts[i]);
            } else {
                assert(parts[i] == parts.last());
            }
        }
    }
}

/// Two or more paths, none holding a comma, quoted and joined by `", "`,
/// read back as themselves.
pub proof fn law_quoted_path_list_round_trip(ps: Seq<Seq<char>>)
    requires
        ps.len() >= 2,
        forall|i: int| 0 <= i < ps.len() ==> !(#[trigger] ps[i]).contains(','),
    ensures
        quoted_path_list(quote_join(ps)) == Some(ps),
{
    lemma_quote_join_split(ps);
    lemma_quoted_parts_len(ps);
    lemma_unquote_parts(ps);
}

/// A value is no quoted path list exactly when it has no comma or one of
/// its comma-separated parts, trimmed, is not a quoted string (at least two
/// characters, starting and ending with the same `'` or `"`).
pub proof fn law_quoted_path_list_refuses(v: Seq<char>)
    ensures
        quoted_path_list(v) is None <==> (split(v, ',').len() < 2 || exists|i: int|
            0 <= i < split(v, ',').len() && unquote(#[trigger] split(v, ',')[i]) is None),
        !v.contains(',') ==> quoted_path_list(v) is None,
{
    lemma_unquote_all_none(split(v, ','));
    if !v.contains(',') {
        lemma_split_without(v, ',');
    }
}

} // verus!
