//! Planning of the outputs.
//!
//! An output whose sources are not all available is skipped. Otherwise its
//! domains are the union of its sources' blocks minus the union of their
//! allows; an output left with no domain is reported empty (the file on disk
//! is kept), any other is ready to be written.

use vstd::prelude::*;
use crate::config::{OutputConfig, OutputView};
use crate::error::{final_exit_spec, EXIT_FETCH, EXIT_GENERIC, EXIT_SUCCESS};
use crate::parser::ParsedSource;
use crate::strset::{strictly_sorted, views, StringSet};

verus! {

broadcast use vstd::seq_lib::group_seq_properties;

/// What is to be done with one output.
#[derive(Debug)]
pub enum OutputPlan {
    Ready {
        output: OutputConfig,
        domains: StringSet,
        blocks_before_allow: usize,
        allows: usize,
    },
    Skipped { output: OutputConfig, unavailable_sources: Vec<String> },
    Empty { output: OutputConfig },
}

/// Outcome of writing the planned outputs.
#[derive(Debug, Clone, Copy, Default)]
pub struct OutputWriteSummary {
    pub written_outputs: usize,
    pub empty_outputs: usize,
}

/// Index of the first parsed source with this id, from index `i` on.
pub open spec fn find_source_from(parsed: Seq<(String, ParsedSource)>, id: Seq<char>, i: int) -> Option<int>
    decreases parsed.len() - i,
{
    if i < 0 || i >= parsed.len() {
        None
    } else if parsed[i].0@ == id {
        Some(i)
    } else {
        find_source_from(parsed, id, i + 1)
    }
}

pub open spec fn find_source(parsed: Seq<(String, ParsedSource)>, id: Seq<char>) -> Option<int> {
    find_source_from(parsed, id, 0)
}

/// A source an output cannot be built without: unavailable, or not parsed.
pub open spec fn is_missing(
    parsed: Seq<(String, ParsedSource)>,
    unavailable: Set<Seq<char>>,
    id: Seq<char>,
) -> bool {
    unavailable.contains(id) || find_source(parsed, id) is None
}

/// The missing ones among `ids`, in order.
pub open spec fn missing_ids(
    ids: Seq<Seq<char>>,
    parsed: Seq<(String, ParsedSource)>,
    unavailable: Set<Seq<char>>,
) -> Seq<Seq<char>>
    decreases ids.len(),
{
    if ids.len() == 0 {
        seq![]
    } else if is_missing(parsed, unavailable, ids.last()) {
        missing_ids(ids.drop_last(), parsed, unavailable).push(ids.last())
    } else {
        missing_ids(ids.drop_last(), parsed, unavailable)
    }
}

/// The union of the blocks of the sources `ids` names.
pub open spec fn blocks_of(ids: Seq<Seq<char>>, parsed: Seq<(String, ParsedSource)>) -> Set<Seq<char>>
    decreases ids.len(),
{
    if ids.len() == 0 {
        Set::empty()
    } else {
        blocks_of(ids.drop_last(), parsed) + match find_source(parsed, ids.last()) {
            Some(i) => parsed[i].1.blocks@,
            None => Set::empty(),
        }
    }
}

/// The union of the allows of the sources `ids` names.
pub open spec fn allows_of(ids: Seq<Seq<char>>, parsed: Seq<(String, ParsedSource)>) -> Set<Seq<char>>
    decreases ids.len(),
{
    if ids.len() == 0 {
        Set::empty()
    } else {
        allows_of(ids.drop_last(), parsed) + match find_source(parsed, ids.last()) {
            Some(i) => parsed[i].1.allows@,
            None => Set::empty(),
        }
    }
}

/// `plan` is the plan of output `o`.
pub open spec fn plan_of(
    plan: OutputPlan,
    o: OutputView,
    parsed: Seq<(String, ParsedSource)>,
    unavailable: Set<Seq<char>>,
) -> bool {
    let missing = missing_ids(o.source_ids, parsed, unavailable);
    let blocks = blocks_of(o.source_ids, parsed);
    let allows = allows_of(o.source_ids, parsed);
    if missing.len() > 0 {
        plan matches OutputPlan::Skipped { output, unavailable_sources } && output@ == o && views(
            unavailable_sources@,
        ) == missing
    } else if blocks - allows == Set::<Seq<char>>::empty() {
        plan matches OutputPlan::Empty { output } && output@ == o
    } else {
        plan matches OutputPlan::Ready { output, domains, blocks_before_allow, allows: n_allows }
            && output@ == o && domains@ == blocks - allows && blocks_before_allow == blocks.len()
            && n_allows == allows.len()
    }
}

pub proof fn lemma_find_source(parsed: Seq<(String, ParsedSource)>, id: Seq<char>, i: int)
    requires
        0 <= i,
    ensures
        find_source_from(parsed, id, i) matches Some(k) ==> i <= k < parsed.len() && parsed[k].0@ == id,
        find_source_from(parsed, id, i) is None ==> forall|k: int| i <= k < parsed.len() ==> (#[trigger] parsed[k]).0@ != id,
    decreases parsed.len() - i,
{
    if i < parsed.len() && parsed[i].0@ != id {
        lemma_find_source(parsed, id, i + 1);
    }
}

/// Index of the parsed source with this id, if any.
fn find_parsed(parsed: &[(String, ParsedSource)], id: &String) -> (r: Option<usize>)
    ensures
        r matches Some(k) ==> find_source(parsed@, id@) == Some(k as int) && k < parsed@.len(),
        r is None ==> find_source(parsed@, id@) is None,
{
    proof {
        lemma_find_source(parsed@, id@, 0);
    }
    let mut i: usize = 0;
    while i < parsed.len()
        invariant
            i <= parsed@.len(),
            find_source(parsed@, id@) == find_source_from(parsed@, id@, i as int),
        decreases parsed@.len() - i,
    {
        if parsed[i].0 == *id {
            return Some(i);
        }
        i += 1;
    }
    None
}

/// The plan of one output.
fn plan_output(
    output: &OutputConfig,
    parsed: &[(String, ParsedSource)],
    unavailable: &StringSet,
) -> (r: OutputPlan)
    ensures
        plan_of(r, output@, parsed@, unavailable@),
{
    let ids = &output.source_ids;
    let ghost iv = views(ids@);
    let mut missing: Vec<String> = Vec::new();
    let mut blocks = StringSet::new();
    let mut allows = StringSet::new();
    let mut i: usize = 0;
    while i < ids.len()
        invariant
            iv == views(ids@),
            iv == output@.source_ids,
            i <= ids@.len(),
            views(missing@) == missing_ids(iv.take(i as int), parsed@, unavailable@),
            blocks@ == blocks_of(iv.take(i as int), parsed@),
            allows@ == allows_of(iv.take(i as int), parsed@),
        decreases ids@.len() - i,
    {
        let ghost t = iv.take(i + 1);
        assert(t.drop_last() =~= iv.take(i as int));
        assert(t.last() == ids@[i as int]@);
        let found = find_parsed(parsed, &ids[i]);
        if unavailable.contains(ids[i].as_str()) || found.is_none() {
            let ghost prev = views(missing@);
            let s = ids[i].clone();
            missing.push(s);
            assert(views(missing@) =~= prev.push(ids@[i as int]@));
        }
        match found {
            Some(k) => {
                let ghost old_blocks = blocks@;
                let ghost old_allows = allows@;
                assert(find_source(parsed@, t.last()) == Some(k as int));
                blocks = blocks.union(&parsed[k].1.blocks);
                allows = allows.union(&parsed[k].1.allows);
                assert(blocks@ == old_blocks + parsed@[k as int].1.blocks@);
                assert(allows@ == old_allows + parsed@[k as int].1.allows@);
            },
            None => {
                assert(blocks@ + Set::<Seq<char>>::empty() =~= blocks@);
                assert(allows@ + Set::<Seq<char>>::empty() =~= allows@);
            },
        }
        assert(blocks_of(t, parsed@) == blocks_of(t.drop_last(), parsed@) + match find_source(
            parsed@,
            t.last(),
        ) {
            Some(j) => parsed@[j].1.blocks@,
            None => Set::empty(),
        });
        assert(allows_of(t, parsed@) == allows_of(t.drop_last(), parsed@) + match find_source(
            parsed@,
            t.last(),
        ) {
            Some(j) => parsed@[j].1.allows@,
            None => Set::empty(),
        });
        i += 1;
    }
    assert(iv.take(ids@.len() as int) =~= iv);
    if missing.len() > 0 {
        return OutputPlan::Skipped { output: output.duplicate(), unavailable_sources: missing };
    }
    let blocks_before_allow = blocks.len();
    let n_allows = allows.len();
    let domains = blocks.difference(&allows);
    if domains.is_empty() {
        OutputPlan::Empty { output: output.duplicate() }
    } else {
        OutputPlan::Ready {
            output: output.duplicate(),
            domains,
            blocks_before_allow,
            allows: n_allows,
        }
    }
}

/// The source ids of parsed sources, in order.
pub open spec fn parsed_ids(parsed: Seq<(String, ParsedSource)>) -> Seq<Seq<char>> {
    parsed.map_values(|e: (String, ParsedSource)| e.0@)
}

/// Plans every output, in order. The parsed sources are listed by strictly
/// increasing id, as a map ordered by id lists them.
pub fn build_output_domains(
    outputs: &[OutputConfig],
    parsed: &[(String, ParsedSource)],
    unavailable: &StringSet,
) -> (plans: Vec<OutputPlan>)
    requires
        strictly_sorted(parsed_ids(parsed@)),
    ensures
        plans@.len() == outputs@.len(),
        forall|k: int| 0 <= k < outputs@.len() ==> plan_of(#[trigger] plans@[k], outputs@[k]@, parsed@, unavailable@),
{
    let mut plans: Vec<OutputPlan> = Vec::new();
    let mut k: usize = 0;
    while k < outputs.len()
        invariant
            k <= outputs@.len(),
            plans@.len() == k,
            forall|j: int| 0 <= j < k ==> plan_of(#[trigger] plans@[j], outputs@[j]@, parsed@, unavailable@),
        decreases outputs@.len() - k,
    {
        let p = plan_output(&outputs[k], parsed, unavailable);
        plans.push(p);
        k += 1;
    }
    plans
}

/// How many plans of each kind.
#[derive(Debug, Clone, Copy, Default, PartialEq, Eq)]
pub struct PlanCounts {
    pub ready: usize,
    pub skipped: usize,
    pub empty: usize,
}

pub open spec fn count_plans(plans: Seq<OutputPlan>) -> (nat, nat, nat)
    decreases plans.len(),
{
    if plans.len() == 0 {
        (0, 0, 0)
    } else {
        let c = count_plans(plans.drop_last());
        match plans.last() {
            OutputPlan::Ready { .. } => (c.0 + 1, c.1, c.2),
            OutputPlan::Skipped { .. } => (c.0, c.1 + 1, c.2),
            OutputPlan::Empty { .. } => (c.0, c.1, c.2 + 1),
        }
    }
}

pub proof fn lemma_count_plans_total(plans: Seq<OutputPlan>)
    ensures
        count_plans(plans).0 + count_plans(plans).1 + count_plans(plans).2 == plans.len(),
    decreases plans.len(),
{
    if plans.len() > 0 {
        lemma_count_plans_total(plans.drop_last());
    }
}

/// Counts the plans that are ready, skipped and empty.
pub fn plan_counts(plans: &[OutputPlan]) -> (c: PlanCounts)
    ensures
        c.ready == count_plans(plans@).0,
        c.skipped == count_plans(plans@).1,
        c.empty == count_plans(plans@).2,
        c.ready + c.skipped + c.empty == plans@.len(),
{
    let mut c = PlanCounts { ready: 0, skipped: 0, empty: 0 };
    let mut i: usize = 0;
    while i < plans.len()
        invariant
            i <= plans@.len(),
            (c.ready as nat, c.skipped as nat, c.empty as nat) == count_plans(plans@.take(i as int)),
        decreases plans@.len() - i,
    {
        assert(plans@.take(i + 1).drop_last() =~= plans@.take(i as int));
        proof {
            lemma_count_plans_total(plans@.take(i as int));
        }
        match &plans[i] {
            OutputPlan::Ready { .. } => c.ready = c.ready + 1,
            OutputPlan::Skipped { .. } => c.skipped = c.skipped + 1,
            OutputPlan::Empty { .. } => c.empty = c.empty + 1,
        }
        i += 1;
    }
    assert(plans@.take(plans@.len() as int) =~= plans@);
    proof {
        lemma_count_plans_total(plans@);
    }
    c
}

/// The summary of writing every plan: each ready output written, each empty
/// one left in place and counted.
pub fn write_summary(plans: &[OutputPlan]) -> (s: OutputWriteSummary)
    ensures
        s.written_outputs == count_plans(plans@).0,
        s.empty_outputs == count_plans(plans@).2,
{
    let c = plan_counts(plans);
    OutputWriteSummary { written_outputs: c.ready, empty_outputs: c.empty }
}

} // verus!

verus! {

/// An allow rule wins: no domain of a ready output is allowed by any of its
/// sources, and every domain comes from a block rule of one of them.
pub proof fn law_ready_domains_are_blocked_and_not_allowed(
    plan: OutputPlan,
    o: OutputView,
    parsed: Seq<(String, ParsedSource)>,
    unavailable: Set<Seq<char>>,
    d: Seq<char>,
)
    requires
        plan_of(plan, o, parsed, unavailable),
        plan matches OutputPlan::Ready { domains, .. } && domains@.contains(d),
    ensures
        blocks_of(o.source_ids, parsed).contains(d),
        !allows_of(o.source_ids, parsed).contains(d),
{
}

/// An output is skipped exactly when one of its sources is unavailable or
/// was not parsed; the sources it lists as unavailable are those.
pub proof fn law_skipped_iff_source_missing(
    plan: OutputPlan,
    o: OutputView,
    parsed: Seq<(String, ParsedSource)>,
    unavailable: Set<Seq<char>>,
)
    requires
        plan_of(plan, o, parsed, unavailable),
    ensures
        (plan is Skipped) <==> exists|i: int|
            0 <= i < o.source_ids.len() && is_missing(parsed, unavailable, #[trigger] o.source_ids[i]),
{
    lemma_missing_ids(o.source_ids, parsed, unavailable);
}

/// `missing_ids` is empty exactly when no id is missing.
pub proof fn lemma_missing_ids(
    ids: Seq<Seq<char>>,
    parsed: Seq<(String, ParsedSource)>,
    unavailable: Set<Seq<char>>,
)
    ensures
        missing_ids(ids, parsed, unavailable).len() > 0 <==> exists|i: int|
            0 <= i < ids.len() && is_missing(parsed, unavailable, #[trigger] ids[i]),
    decreases ids.len(),
{
    if ids.len() > 0 {
        lemma_missing_ids(ids.drop_last(), parsed, unavailable);
        if exists|i: int| 0 <= i < ids.len() && is_missing(parsed, unavailable, #[trigger] ids[i]) {
            let i = choose|i: int| 0 <= i < ids.len() && is_missing(parsed, unavailable, #[trigger] ids[i]);
            if i < ids.len() - 1 {
                assert(ids.drop_last()[i] == ids[i]);
            }
        }
        if exists|i: int|
            0 <= i < ids.drop_last().len() && is_missing(parsed, unavailable, #[trigger] ids.drop_last()[i]) {
            let i = choose|i: int|
                0 <= i < ids.drop_last().len() && is_missing(parsed, unavailable, #[trigger] ids.drop_last()[i]);
            assert(ids[i] == ids.drop_last()[i]);
        }
    }
}

/// A ready output holds at least one domain; an empty one is never written.
pub proof fn law_ready_outputs_are_not_empty(
    plan: OutputPlan,
    o: OutputView,
    parsed: Seq<(String, ParsedSource)>,
    unavailable: Set<Seq<char>>,
)
    requires
        plan_of(plan, o, parsed, unavailable),
        plan is Ready,
    ensures
        plan matches OutputPlan::Ready { domains, .. } && domains@ != Set::<Seq<char>>::empty(),
{
}

} // verus!

verus! {

/// `count_plans` counts: each count is positive exactly when some plan is of
/// its kind.
pub proof fn lemma_count_plans_positive(plans: Seq<OutputPlan>)
    ensures
        count_plans(plans).0 > 0 <==> exists|i: int| 0 <= i < plans.len() && #[trigger] plans[i] is Ready,
        count_plans(plans).1 > 0 <==> exists|i: int| 0 <= i < plans.len() && #[trigger] plans[i] is Skipped,
        count_plans(plans).2 > 0 <==> exists|i: int| 0 <= i < plans.len() && #[trigger] plans[i] is Empty,
    decreases plans.len(),
{
    if plans.len() > 0 {
        let front = plans.drop_last();
        let n = plans.len() - 1;
        lemma_count_plans_positive(front);
        assert(plans[n] == plans.last());
        if exists|i: int| 0 <= i < plans.len() && #[trigger] plans[i] is Ready {
            let i = choose|i: int| 0 <= i < plans.len() && #[trigger] plans[i] is Ready;
            if i < n {
                assert(front[i] == plans[i]);
            }
        }
        if exists|i: int| 0 <= i < front.len() && #[trigger] front[i] is Ready {
            let i = choose|i: int| 0 <= i < front.len() && #[trigger] front[i] is Ready;
            assert(front[i] == plans[i]);
        }
        if exists|i: int| 0 <= i < plans.len() && #[trigger] plans[i] is Skipped {
            let i = choose|i: int| 0 <= i < plans.len() && #[trigger] plans[i] is Skipped;
            if i < n {
                assert(front[i] == plans[i]);
            }
        }
        if exists|i: int| 0 <= i < front.len() && #[trigger] front[i] is Skipped {
            let i = choose|i: int| 0 <= i < front.len() && #[trigger] front[i] is Skipped;
            assert(front[i] == plans[i]);
        }
        if exists|i: int| 0 <= i < plans.len() && #[trigger] plans[i] is Empty {
            let i = choose|i: int| 0 <= i < plans.len() && #[trigger] plans[i] is Empty;
            if i < n {
                assert(front[i] == plans[i]);
            }
        }
        if exists|i: int| 0 <= i < front.len() && #[trigger] front[i] is Empty {
            let i = choose|i: int| 0 <= i < front.len() && #[trigger] front[i] is Empty;
            assert(front[i] == plans[i]);
        }
    }
}

/// A completed run exits 1 when some output came out empty, otherwise 3
/// when some output was skipped for a missing source, and 0 when every
/// output was ready to be written.
pub proof fn law_run_exit_code(plans: Seq<OutputPlan>)
    ensures
        ({
            let c = count_plans(plans);
            let code = final_exit_spec(c.1 > 0, c.2 > 0);
            &&& code == EXIT_GENERIC <==> exists|i: int|
                0 <= i < plans.len() && #[trigger] plans[i] is Empty
            &&& code == EXIT_FETCH <==> (exists|i: int|
                0 <= i < plans.len() && #[trigger] plans[i] is Skipped) && !exists|i: int|
                0 <= i < plans.len() && #[trigger] plans[i] is Empty
            &&& code == EXIT_SUCCESS <==> forall|i: int|
                0 <= i < plans.len() ==> #[trigger] plans[i] is Ready
        }),
{
    lemma_count_plans_positive(plans);
    if forall|i: int| 0 <= i < plans.len() ==> #[trigger] plans[i] is Ready {
        if exists|i: int| 0 <= i < plans.len() && #[trigger] plans[i] is Empty {
            let i = choose|i: int| 0 <= i < plans.len() && #[trigger] plans[i] is Empty;
            assert(plans[i] is Ready);
        }
        if exists|i: int| 0 <= i < plans.len() && #[trigger] plans[i] is Skipped {
            let i = choose|i: int| 0 <= i < plans.len() && #[trigger] plans[i] is Skipped;
            assert(plans[i] is Ready);
        }
    }
    if !(exists|i: int| 0 <= i < plans.len() && #[trigger] plans[i] is Empty)
        && !(exists|i: int| 0 <= i < plans.len() && #[trigger] plans[i] is Skipped) {
        assert forall|i: int| 0 <= i < plans.len() implies #[trigger] plans[i] is Ready by {
            if !(plans[i] is Ready) {
                if plans[i] is Empty {
                    assert(exists|j: int| 0 <= j < plans.len() && #[trigger] plans[j] is Empty);
                } else {
                    assert(exists|j: int| 0 <= j < plans.len() && #[trigger] plans[j] is Skipped);
                }
            }
        }
    }
}

} // verus!

verus! {

/// The outputs to write, as indices into `plans` in plan order: every
/// ready plan and nothing else, and none at all in a dry run.
pub fn outputs_to_write(plans: &[OutputPlan], dry_run: bool) -> (r: Vec<usize>)
    ensures
        dry_run ==> r@.len() == 0,
        !dry_run ==> forall|i: int|
            0 <= i < r@.len() ==> r@[i] < plans@.len() && (#[trigger] plans@[r@[i] as int]) is Ready,
        !dry_run ==> forall|i: int, j: int| 0 <= i < j < r@.len() ==> r@[i] < r@[j],
        !dry_run ==> forall|k: int|
            0 <= k < plans@.len() && (#[trigger] plans@[k]) is Ready ==> r@.contains(k as usize),
{
    let mut r: Vec<usize> = Vec::new();
    if dry_run {
        return r;
    }
    let mut k: usize = 0;
    while k < plans.len()
        invariant
            k <= plans@.len(),
            forall|i: int| 0 <= i < r@.len() ==> #[trigger] r@[i] < k,
            forall|i: int| 0 <= i < r@.len() ==> (#[trigger] plans@[r@[i] as int]) is Ready,
            forall|i: int, j: int| 0 <= i < j < r@.len() ==> r@[i] < r@[j],
            forall|q: int| 0 <= q < k && (#[trigger] plans@[q]) is Ready ==> r@.contains(q as usize),
        decreases plans@.len() - k,
    {
        if let OutputPlan::Ready { .. } = &plans[k] {
            let ghost before = r@;
            r.push(k);
            assert forall|i: int, j: int| 0 <= i < j < r@.len() implies r@[i] < r@[j] by {
                if j == before.len() {
                    assert(r@[i] == before[i]);
                } else {
                    assert(r@[i] == before[i] && r@[j] == before[j]);
                }
            }
            assert forall|q: int| 0 <= q < k + 1 && (#[trigger] plans@[q]) is Ready implies r@.contains(
                q as usize,
            ) by {
                if q < k {
                    let i = choose|i: int| 0 <= i < before.len() && before[i] == q as usize;
                    assert(r@[i] == q as usize);
                } else {
                    assert(r@[before.len() as int] == k);
                }
            }
        }
        k += 1;
    }
    r
}

} // verus!

verus! {

/// With ids strictly increasing, the source found for the id of entry `j`
/// is entry `j`.
proof fn lemma_find_source_sorted(parsed: Seq<(String, ParsedSource)>, j: int)
    requires
        strictly_sorted(parsed_ids(parsed)),
        0 <= j < parsed.len(),
    ensures
        find_source(parsed, parsed[j].0@) == Some(j),
{
    let id = parsed[j].0@;
    lemma_find_source(parsed, id, 0);
    if let Some(k) = find_source(parsed, id) {
        if k != j {
            let ids = parsed_ids(parsed);
            assert(ids[k] == id && ids[j] == id);
            crate::strset::lemma_bytes_lt_irreflexive(vstd::utf8::encode_utf8(id));
            if k < j {
                assert(crate::strset::str_lt(ids[k], ids[j]));
            } else {
                assert(crate::strset::str_lt(ids[j], ids[k]));
            }
        }
    } else {
        assert(parsed[j].0@ == id);
    }
}

/// The blocks of a named, parsed source are among the blocks of the names.
proof fn lemma_blocks_of_has(ids: Seq<Seq<char>>, parsed: Seq<(String, ParsedSource)>, i: int, j: int, d: Seq<char>)
    requires
        0 <= i < ids.len(),
        find_source(parsed, ids[i]) == Some(j),
        parsed[j].1.blocks@.contains(d),
    ensures
        blocks_of(ids, parsed).contains(d),
    decreases ids.len(),
{
    if i < ids.len() - 1 {
        assert(ids.drop_last()[i] == ids[i]);
        lemma_blocks_of_has(ids.drop_last(), parsed, i, j, d);
    }
}

/// An allowed domain is allowed by one of the named, parsed sources.
proof fn lemma_allows_of_from(ids: Seq<Seq<char>>, parsed: Seq<(String, ParsedSource)>, d: Seq<char>)
    requires
        allows_of(ids, parsed).contains(d),
    ensures
        exists|i: int, j: int|
            0 <= i < ids.len() && 0 <= j < parsed.len() && parsed[j].0@ == #[trigger] ids[i]
                && (#[trigger] parsed[j]).1.allows@.contains(d),
    decreases ids.len(),
{
    if ids.len() > 0 {
        let init = ids.drop_last();
        lemma_find_source(parsed, ids.last(), 0);
        if allows_of(init, parsed).contains(d) {
            lemma_allows_of_from(init, parsed, d);
            let (i, j) = choose|i: int, j: int|
                0 <= i < init.len() && 0 <= j < parsed.len() && parsed[j].0@ == #[trigger] init[i]
                    && (#[trigger] parsed[j]).1.allows@.contains(d);
            assert(ids[i] == init[i]);
        } else {
            let j = find_source(parsed, ids.last()).unwrap();
            assert(parsed[j].0@ == ids[ids.len() - 1]);
        }
    }
}

/// Every domain blocked by one of an output's sources and allowed by none
/// of them is in the ready output, and every domain of the ready output is
/// blocked by one of its sources and allowed by none.
pub proof fn law_ready_domains_are_all_blocked_not_allowed(
    plan: OutputPlan,
    o: OutputView,
    parsed: Seq<(String, ParsedSource)>,
    unavailable: Set<Seq<char>>,
    d: Seq<char>,
)
    requires
        strictly_sorted(parsed_ids(parsed)),
        plan_of(plan, o, parsed, unavailable),
        plan is Ready,
    ensures
        (exists|i: int, j: int|
            0 <= i < o.source_ids.len() && 0 <= j < parsed.len() && parsed[j].0@
                == #[trigger] o.source_ids[i] && (#[trigger] parsed[j]).1.blocks@.contains(d))
            && (forall|i: int, j: int|
            0 <= i < o.source_ids.len() && 0 <= j < parsed.len() && parsed[j].0@
                == #[trigger] o.source_ids[i] ==> !(#[trigger] parsed[j]).1.allows@.contains(d))
            <==> plan->Ready_domains@.contains(d),
{
    let ids = o.source_ids;
    let blocked = exists|i: int, j: int|
        0 <= i < ids.len() && 0 <= j < parsed.len() && parsed[j].0@ == #[trigger] ids[i]
            && (#[trigger] parsed[j]).1.blocks@.contains(d);
    let not_allowed = forall|i: int, j: int|
        0 <= i < ids.len() && 0 <= j < parsed.len() && parsed[j].0@ == #[trigger] ids[i]
            ==> !(#[trigger] parsed[j]).1.allows@.contains(d);
    if blocked {
        let (i, j) = choose|i: int, j: int|
            0 <= i < ids.len() && 0 <= j < parsed.len() && parsed[j].0@ == #[trigger] ids[i]
                && (#[trigger] parsed[j]).1.blocks@.contains(d);
        lemma_find_source_sorted(parsed, j);
        lemma_blocks_of_has(ids, parsed, i, j, d);
    }
    if allows_of(ids, parsed).contains(d) {
        lemma_allows_of_from(ids, parsed, d);
    }
    if plan->Ready_domains@.contains(d) {
        lemma_blocks_of_from(ids, parsed, d);
        assert forall|i: int, j: int|
            0 <= i < ids.len() && 0 <= j < parsed.len() && parsed[j].0@ == #[trigger] ids[i]
                implies !(#[trigger] parsed[j]).1.allows@.contains(d) by {
            if parsed[j].1.allows@.contains(d) {
                lemma_find_source_sorted(parsed, j);
                lemma_allows_of_has(ids, parsed, i, j, d);
            }
        }
    }
}

/// The allows of a named, parsed source are among the allows of the names.
proof fn lemma_allows_of_has(ids: Seq<Seq<char>>, parsed: Seq<(String, ParsedSource)>, i: int, j: int, d: Seq<char>)
    requires
        0 <= i < ids.len(),
        find_source(parsed, ids[i]) == Some(j),
        parsed[j].1.allows@.contains(d),
    ensures
        allows_of(ids, parsed).contains(d),
    decreases ids.len(),
{
    if i < ids.len() - 1 {
        assert(ids.drop_last()[i] == ids[i]);
        lemma_allows_of_has(ids.drop_last(), parsed, i, j, d);
    }
}

/// A blocked domain is blocked by one of the named, parsed sources.
proof fn lemma_blocks_of_from(ids: Seq<Seq<char>>, parsed: Seq<(String, ParsedSource)>, d: Seq<char>)
    requires
        blocks_of(ids, parsed).contains(d),
    ensures
        exists|i: int, j: int|
            0 <= i < ids.len() && 0 <= j < parsed.len() && parsed[j].0@ == #[trigger] ids[i]
                && (#[trigger] parsed[j]).1.blocks@.contains(d),
    decreases ids.len(),
{
    if ids.len() > 0 {
        let init = ids.drop_last();
        lemma_find_source(parsed, ids.last(), 0);
        if blocks_of(init, parsed).contains(d) {
            lemma_blocks_of_from(init, parsed, d);
            let (i, j) = choose|i: int, j: int|
                0 <= i < init.len() && 0 <= j < parsed.len() && parsed[j].0@ == #[trigger] init[i]
                    && (#[trigger] parsed[j]).1.blocks@.contains(d);
            assert(ids[i] == init[i]);
        } else {
            let j = find_source(parsed, ids.last()).unwrap();
            assert(parsed[j].0@ == ids[ids.len() - 1]);
        }
    }
}

} // verus!
