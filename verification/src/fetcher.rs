//! What a fetch of a source yields.
//!
//! A source is tried up to `MAX_ATTEMPTS` times. A fresh body is used (and
//! cached unless this is a dry run); a `304 Not Modified` answer is served
//! from the cache when there is a usable copy. When every attempt fails, a
//! usable cached copy is served as stale; otherwise the source is
//! unavailable. `--force-refresh` makes no cached copy usable. The requests,
//! the waiting and the cache files are handled outside the library, which
//! decides after each attempt what happens next.

use vstd::prelude::*;
use crate::cache::CachedSource;
use crate::error::FetchError;
use crate::strset::{views, StringSet};

verus! {

broadcast use vstd::seq_lib::group_seq_properties;

pub const MAX_CONCURRENT_FETCHES: usize = 8;

pub const MAX_ATTEMPTS: usize = 4;

/// A source's body, and where it came from.
#[derive(Debug, Clone)]
pub struct FetchedSource {
    pub body: Vec<u8>,
    pub from_cache: bool,
    pub stale: bool,
}

/// The outcome of fetching one source.
#[derive(Debug, Clone)]
pub enum FetchOutcome {
    Available(FetchedSource),
    Unavailable { error: FetchError },
}

/// How one attempt ended.
#[derive(Debug, Clone)]
pub enum AttemptResult {
    /// A successful response with a body.
    Fresh,
    /// `304 Not Modified`.
    NotModified,
    /// Anything else; the text says what went wrong.
    Failed(String),
}

/// What to do after an attempt.
#[derive(Debug, Clone)]
pub enum FetchStep {
    /// Use the body just fetched, storing it in the cache if asked to.
    UseFresh { store_in_cache: bool },
    /// Use the cached body (`stale` when the fetch failed).
    UseCached { stale: bool },
    /// Wait this many milliseconds, then try again.
    Retry { delay_ms: u64 },
    /// Give up: the source is unavailable.
    Fail(FetchError),
}

/// A cached copy may be used: one was found and no refresh was forced.
pub open spec fn cache_usable(cache_found: bool, force_refresh: bool) -> bool {
    cache_found && !force_refresh
}

/// The message of a failed attempt.
pub open spec fn attempt_error(result: AttemptResult) -> Seq<char> {
    match result {
        AttemptResult::Failed(e) => e@,
        _ => "server returned 304 without usable cache"@,
    }
}

/// The decision after attempt `attempt` (counted from 1) ended with `result`.
pub open spec fn step_spec(
    source_id: Seq<char>,
    attempt: int,
    cache_found: bool,
    force_refresh: bool,
    dry_run: bool,
    result: AttemptResult,
    step: FetchStep,
) -> bool {
    let usable = cache_usable(cache_found, force_refresh);
    match result {
        AttemptResult::Fresh => step == FetchStep::UseFresh { store_in_cache: !dry_run },
        AttemptResult::NotModified if usable => step == FetchStep::UseCached { stale: false },
        _ => if attempt < MAX_ATTEMPTS {
            step == FetchStep::Retry { delay_ms: (100 * attempt) as u64 }
        } else if usable {
            step == FetchStep::UseCached { stale: true }
        } else {
            step matches FetchStep::Fail(FetchError::Unavailable { source_id: id, message })
                && id@ == source_id && message@ == attempt_error(result)
        },
    }
}

/// Decides what follows attempt `attempt` of fetching `source_id`.
pub fn after_attempt(
    source_id: &str,
    attempt: usize,
    cache_found: bool,
    force_refresh: bool,
    dry_run: bool,
    result: AttemptResult,
) -> (step: FetchStep)
    requires
        1 <= attempt <= MAX_ATTEMPTS,
    ensures
        step_spec(source_id@, attempt as int, cache_found, force_refresh, dry_run, result, step),
{
    let usable = cache_found && !force_refresh;
    let message = match result {
        AttemptResult::Fresh => {
            return FetchStep::UseFresh { store_in_cache: !dry_run };
        },
        AttemptResult::NotModified => {
            if usable {
                return FetchStep::UseCached { stale: false };
            }
            String::from_str("server returned 304 without usable cache")
        },
        AttemptResult::Failed(e) => e,
    };
    if attempt < MAX_ATTEMPTS {
        FetchStep::Retry { delay_ms: 100 * attempt as u64 }
    } else if usable {
        FetchStep::UseCached { stale: true }
    } else {
        FetchStep::Fail(
            FetchError::Unavailable { source_id: String::from_str(source_id), message },
        )
    }
}

/// The validators to send: the cached `ETag` and `Last-Modified`, unless a
/// refresh is forced or nothing is cached.
pub fn conditional_headers(cached: Option<&CachedSource>, force_refresh: bool) -> (r: (
    Option<String>,
    Option<String>,
))
    ensures
        force_refresh || cached is None ==> r.0 is None && r.1 is None,
        !force_refresh && cached is Some ==> r.0 == cached.unwrap().metadata.etag && r.1
            == cached.unwrap().metadata.last_modified,
{
    if force_refresh {
        return (None, None);
    }
    match cached {
        None => (None, None),
        Some(c) => (clone_opt(&c.metadata.etag), clone_opt(&c.metadata.last_modified)),
    }
}

fn clone_opt(o: &Option<String>) -> (r: Option<String>)
    ensures
        r == *o,
{
    match o {
        Some(s) => Some(s.clone()),
        None => None,
    }
}

/// The available bodies among the outcomes, in order.
pub open spec fn available_of(outs: Seq<(String, FetchOutcome)>) -> Seq<(String, FetchedSource)>
    decreases outs.len(),
{
    if outs.len() == 0 {
        seq![]
    } else {
        let rest = available_of(outs.drop_last());
        match outs.last().1 {
            FetchOutcome::Available(s) => rest.push((outs.last().0, s)),
            _ => rest,
        }
    }
}

/// The ids of the sources that could not be had, in order.
pub open spec fn unavailable_of(outs: Seq<(String, FetchOutcome)>) -> Seq<Seq<char>>
    decreases outs.len(),
{
    if outs.len() == 0 {
        seq![]
    } else {
        let rest = unavailable_of(outs.drop_last());
        match outs.last().1 {
            FetchOutcome::Unavailable { .. } => rest.push(outs.last().0@),
            _ => rest,
        }
    }
}

/// Splits fetch outcomes into the available bodies (in order) and the ids
/// of the sources that could not be had.
pub fn partition_outcomes(outcomes: Vec<(String, FetchOutcome)>) -> (r: (
    Vec<(String, FetchedSource)>,
    StringSet,
))
    ensures
        r.0@ == available_of(outcomes@),
        r.1@ == unavailable_of(outcomes@).to_set(),
{
    let ghost all = outcomes@;
    let mut available: Vec<(String, FetchedSource)> = Vec::new();
    let mut missing: Vec<String> = Vec::new();
    for e in it: outcomes
        invariant
            all == it.seq(),
            available@ == available_of(all.take(it.index() as int)),
            views(missing@) == unavailable_of(all.take(it.index() as int)),
    {
        let ghost i = it.index() as int;
        assert(all.take(i + 1).drop_last() =~= all.take(i));
        assert(all.take(i + 1).last() == e);
        let (id, outcome) = e;
        match outcome {
            FetchOutcome::Available(src) => {
                available.push((id, src));
            },
            FetchOutcome::Unavailable { .. } => {
                let ghost prev = views(missing@);
                let ghost idv = id@;
                missing.push(id);
                assert(views(missing@) =~= prev.push(idv));
            },
        }
    }
    assert(all.take(all.len() as int) =~= all);
    let set = StringSet::from_vec(missing);
    (available, set)
}

} // verus!

verus! {

/// With `--force-refresh` no cached copy is ever served, fresh or stale.
pub proof fn law_force_refresh_never_serves_cache(
    source_id: Seq<char>,
    attempt: int,
    cache_found: bool,
    dry_run: bool,
    result: AttemptResult,
    step: FetchStep,
)
    requires
        step_spec(source_id, attempt, cache_found, true, dry_run, result, step),
    ensures
        !(step is UseCached),
{
}

/// A dry run never writes the cache.
pub proof fn law_dry_run_never_stores(
    source_id: Seq<char>,
    attempt: int,
    cache_found: bool,
    force_refresh: bool,
    result: AttemptResult,
    step: FetchStep,
)
    requires
        step_spec(source_id, attempt, cache_found, force_refresh, true, result, step),
    ensures
        !(step matches FetchStep::UseFresh { store_in_cache } && store_in_cache),
{
}

/// A source is tried at most `MAX_ATTEMPTS` times: the last attempt never
/// asks for another.
pub proof fn law_attempts_are_bounded(
    source_id: Seq<char>,
    cache_found: bool,
    force_refresh: bool,
    dry_run: bool,
    result: AttemptResult,
    step: FetchStep,
)
    requires
        step_spec(source_id, MAX_ATTEMPTS as int, cache_found, force_refresh, dry_run, result, step),
    ensures
        !(step is Retry),
{
}

/// When every attempt fails, a usable cached copy is served as stale, and
/// the source is unavailable only when there is none.
pub proof fn law_stale_cache_after_failed_retries(
    source_id: Seq<char>,
    cache_found: bool,
    force_refresh: bool,
    dry_run: bool,
    message: String,
    step: FetchStep,
)
    requires
        step_spec(
            source_id,
            MAX_ATTEMPTS as int,
            cache_found,
            force_refresh,
            dry_run,
            AttemptResult::Failed(message),
            step,
        ),
    ensures
        cache_usable(cache_found, force_refresh) ==> (step == FetchStep::UseCached { stale: true }),
        !cache_usable(cache_found, force_refresh) ==> (step is Fail),
{
}

} // verus!

verus! {

/// How a response status is taken.
#[derive(Debug, Clone, Copy, PartialEq, Eq)]
pub enum ResponseKind {
    /// `304 Not Modified`.
    NotModified,
    /// A `2xx` status: the body is the source.
    Success,
    /// Anything else.
    Failure,
}

/// Classifies an HTTP status code.
pub fn classify_status(code: u16) -> (k: ResponseKind)
    ensures
        code == 304 ==> k == ResponseKind::NotModified,
        200 <= code <= 299 ==> k == ResponseKind::Success,
        code != 304 && !(200 <= code <= 299) ==> k == ResponseKind::Failure,
{
    if code == 304 {
        ResponseKind::NotModified
    } else if 200 <= code && code <= 299 {
        ResponseKind::Success
    } else {
        ResponseKind::Failure
    }
}

} // verus!

verus! {

/// The source ids of fetch outcomes, in order.
pub open spec fn outcome_ids(outs: Seq<(String, FetchOutcome)>) -> Seq<Seq<char>> {
    outs.map_values(|e: (String, FetchOutcome)| e.0@)
}

/// Every source whose fetch yielded a body is kept with that body, whether
/// it came fresh, from the cache, or stale from the cache after failed
/// retries; and everything kept comes from such an outcome.
pub proof fn law_available_outcomes_are_kept(outs: Seq<(String, FetchOutcome)>)
    ensures
        forall|i: int|
            0 <= i < outs.len() && (#[trigger] outs[i]).1 is Available ==> available_of(
                outs,
            ).contains((outs[i].0, outs[i].1->Available_0)),
        forall|e: (String, FetchedSource)|
            #[trigger] available_of(outs).contains(e) ==> exists|i: int|
                0 <= i < outs.len() && #[trigger] outs[i] == (e.0, FetchOutcome::Available(e.1)),
    decreases outs.len(),
{
    if outs.len() > 0 {
        let front = outs.drop_last();
        law_available_outcomes_are_kept(front);
        let rest = available_of(front);
        assert forall|i: int|
            0 <= i < outs.len() && (#[trigger] outs[i]).1 is Available implies available_of(
                outs,
            ).contains((outs[i].0, outs[i].1->Available_0)) by {
            if i < front.len() {
                assert(front[i] == outs[i]);
                let j = choose|j: int| 0 <= j < rest.len() && rest[j] == (front[i].0, front[i].1->Available_0);
                assert(available_of(outs)[j] == rest[j]);
            } else {
                let a = available_of(outs);
                assert(a[a.len() - 1] == (outs[i].0, outs[i].1->Available_0));
            }
        }
        assert forall|e: (String, FetchedSource)| #[trigger] available_of(outs).contains(e) implies exists|i: int|
            0 <= i < outs.len() && #[trigger] outs[i] == (e.0, FetchOutcome::Available(e.1)) by {
            let a = available_of(outs);
            let j = choose|j: int| 0 <= j < a.len() && a[j] == e;
            if j < rest.len() {
                assert(rest[j] == e);
                assert(rest.contains(e));
                let i = choose|i: int|
                    0 <= i < front.len() && #[trigger] front[i] == (e.0, FetchOutcome::Available(e.1));
                assert(outs[i] == front[i]);
            } else {
                assert(outs[outs.len() - 1] == (e.0, FetchOutcome::Available(e.1)));
            }
        }
    }
}

/// A source is unavailable exactly when one of its outcomes says so.
pub proof fn law_unavailable_exactly_the_failed(outs: Seq<(String, FetchOutcome)>, id: Seq<char>)
    ensures
        unavailable_of(outs).contains(id) <==> exists|i: int|
            0 <= i < outs.len() && (#[trigger] outs[i]).0@ == id && outs[i].1 is Unavailable,
    decreases outs.len(),
{
    if outs.len() > 0 {
        let front = outs.drop_last();
        law_unavailable_exactly_the_failed(front, id);
        let rest = unavailable_of(front);
        let u = unavailable_of(outs);
        if u.contains(id) {
            let j = choose|j: int| 0 <= j < u.len() && u[j] == id;
            if j < rest.len() {
                assert(rest[j] == id);
                let i = choose|i: int|
                    0 <= i < front.len() && (#[trigger] front[i]).0@ == id && front[i].1 is Unavailable;
                assert(outs[i] == front[i]);
            } else {
                assert(outs[outs.len() - 1].0@ == id);
            }
        }
        if exists|i: int| 0 <= i < outs.len() && (#[trigger] outs[i]).0@ == id && outs[i].1 is Unavailable {
            let i = choose|i: int| 0 <= i < outs.len() && (#[trigger] outs[i]).0@ == id && outs[i].1 is Unavailable;
            if i < front.len() {
                assert(front[i] == outs[i]);
                let j = choose|j: int| 0 <= j < rest.len() && rest[j] == id;
                assert(u[j] == rest[j]);
            } else {
                assert(u[u.len() - 1] == id);
            }
        }
    }
}

/// With each source listed once, a source whose fetch yielded a body (stale
/// or not) is never among the unavailable ones.
pub proof fn law_available_never_unavailable(outs: Seq<(String, FetchOutcome)>, i: int)
    requires
        outcome_ids(outs).no_duplicates(),
        0 <= i < outs.len(),
        outs[i].1 is Available,
    ensures
        !unavailable_of(outs).contains(outs[i].0@),
{
    law_unavailable_exactly_the_failed(outs, outs[i].0@);
    if unavailable_of(outs).contains(outs[i].0@) {
        let j = choose|j: int|
            0 <= j < outs.len() && (#[trigger] outs[j]).0@ == outs[i].0@ && outs[j].1 is Unavailable;
        assert(outcome_ids(outs)[j] == outcome_ids(outs)[i]);
    }
}

} // verus!
