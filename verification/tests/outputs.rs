use cdbgen_rs::config::{OutputConfig, OutputKeyFormat};
use cdbgen_rs::outputs::{build_output_domains, outputs_to_write, plan_counts, write_summary, OutputPlan};
use cdbgen_rs::parser::{ParseStats, ParsedSource, SourceFormat};
use cdbgen_rs::strset::StringSet;
use cdbgen_rs::{final_exit_code, EXIT_FETCH, EXIT_GENERIC, EXIT_SUCCESS};

fn output(source_ids: Vec<&str>) -> OutputConfig {
    OutputConfig {
        group: source_ids.join(", "),
        source_ids: source_ids.into_iter().map(ToOwned::to_owned).collect(),
        path: "/tmp/out.cdb".to_string(),
        key_format: OutputKeyFormat::Wire,
    }
}

fn parsed(blocks: &[&str], allows: &[&str]) -> ParsedSource {
    ParsedSource {
        detected_format: SourceFormat::Hostfile,
        blocks: StringSet::from_vec(blocks.iter().map(|value| (*value).to_string()).collect()),
        allows: StringSet::from_vec(allows.iter().map(|value| (*value).to_string()).collect()),
        stats: ParseStats::default(),
    }
}

#[test]
fn subtracts_allows() {
    let sources = vec![(
        "a".to_string(),
        parsed(&["a.example", "b.example"], &["b.example"]),
    )];
    let plans = build_output_domains(&[output(vec!["a"])], &sources, &StringSet::new());

    match &plans[0] {
        OutputPlan::Ready { domains, .. } => {
            assert_eq!(domains.as_slice(), &["a.example".to_string()]);
        }
        other => panic!("{other:?}"),
    }
}

#[test]
fn skips_outputs_with_unavailable_sources() {
    let sources = Vec::new();
    let unavailable = StringSet::from_vec(vec!["b".to_string()]);
    let plans = build_output_domains(&[output(vec!["a", "b"])], &sources, &unavailable);
    assert!(matches!(plans[0], OutputPlan::Skipped { .. }));
}

#[test]
fn marks_empty_outputs() {
    let sources = vec![("a".to_string(), parsed(&["a.example"], &["a.example"]))];
    let plans = build_output_domains(&[output(vec!["a"])], &sources, &StringSet::new());
    assert!(matches!(plans[0], OutputPlan::Empty { .. }));
}

#[test]
fn unions_sources_and_reports_counts() {
    let sources = vec![
        ("a".to_string(), parsed(&["x.example", "y.example"], &[])),
        ("b".to_string(), parsed(&["y.example", "z.example"], &["z.example", "w.example"])),
    ];
    let plans = build_output_domains(&[output(vec!["a", "b"])], &sources, &StringSet::new());
    match &plans[0] {
        OutputPlan::Ready {
            output,
            domains,
            blocks_before_allow,
            allows,
        } => {
            assert_eq!(output.source_ids, vec!["a".to_string(), "b".to_string()]);
            assert_eq!(
                domains.as_slice(),
                &["x.example".to_string(), "y.example".to_string()]
            );
            assert_eq!(*blocks_before_allow, 3);
            assert_eq!(*allows, 2);
        }
        other => panic!("{other:?}"),
    }
}

#[test]
fn skipped_plan_lists_missing_sources_in_order() {
    let sources = vec![("a".to_string(), parsed(&["x.example"], &[]))];
    let unavailable = StringSet::from_vec(vec!["c".to_string()]);
    let plans = build_output_domains(&[output(vec!["c", "a", "b"])], &sources, &unavailable);
    match &plans[0] {
        OutputPlan::Skipped {
            unavailable_sources,
            ..
        } => assert_eq!(unavailable_sources, &vec!["c".to_string(), "b".to_string()]),
        other => panic!("{other:?}"),
    }
}

#[test]
fn counts_plans_and_write_summary() {
    let sources = vec![
        ("a".to_string(), parsed(&["x.example"], &[])),
        ("e".to_string(), parsed(&["x.example"], &["x.example"])),
    ];
    let plans = build_output_domains(
        &[output(vec!["a"]), output(vec!["e"]), output(vec!["missing"]), output(vec!["a", "e"])],
        &sources,
        &StringSet::new(),
    );
    let counts = plan_counts(&plans);
    assert_eq!((counts.ready, counts.skipped, counts.empty), (1, 1, 2));
    let summary = write_summary(&plans);
    assert_eq!(summary.written_outputs, 1);
    assert_eq!(summary.empty_outputs, 2);
}

fn exit_code_of(plans: &[OutputPlan]) -> i32 {
    let c = plan_counts(plans);
    final_exit_code(c.skipped > 0, c.empty > 0)
}

#[test]
fn run_exit_code_follows_the_plans() {
    let sources = vec![
        ("a".to_string(), parsed(&["a.example"], &[])),
        ("e".to_string(), parsed(&["e.example"], &["e.example"])),
    ];
    let unavailable = StringSet::from_vec(vec!["b".to_string()]);

    let all_ready = build_output_domains(&[output(vec!["a"])], &sources, &unavailable);
    assert_eq!(exit_code_of(&all_ready), EXIT_SUCCESS);

    let skipped = build_output_domains(
        &[output(vec!["a"]), output(vec!["a", "b"])],
        &sources,
        &unavailable,
    );
    assert_eq!(exit_code_of(&skipped), EXIT_FETCH);

    let empty_and_skipped = build_output_domains(
        &[output(vec!["e"]), output(vec!["b"]), output(vec!["a"])],
        &sources,
        &unavailable,
    );
    assert_eq!(exit_code_of(&empty_and_skipped), EXIT_GENERIC);
}

#[test]
fn writes_exactly_the_ready_outputs_unless_dry_run() {
    let sources = vec![
        ("a".to_string(), parsed(&["a.example"], &[])),
        ("e".to_string(), parsed(&["e.example"], &["e.example"])),
    ];
    let unavailable = StringSet::from_vec(vec!["b".to_string()]);
    let plans = build_output_domains(
        &[output(vec!["a"]), output(vec!["b"]), output(vec!["e"]), output(vec!["a", "e"])],
        &sources,
        &unavailable,
    );
    assert_eq!(outputs_to_write(&plans, false), vec![0, 3]);
    assert_eq!(outputs_to_write(&plans, true), Vec::<usize>::new());
}
