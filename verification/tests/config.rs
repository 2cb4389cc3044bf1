use cdbgen_rs::config::{
    is_valid_source_id, parse_output_group, parse_quoted_path_list, Config, RawConfig,
    RawOutputPaths,
};
use cdbgen_rs::error::ConfigError;

fn raw(sources: &[(&str, &str)], outputs: Vec<(&str, RawOutputPaths)>) -> RawConfig {
    RawConfig {
        sources: Some(
            sources
                .iter()
                .map(|(id, url)| (id.to_string(), url.to_string()))
                .collect(),
        ),
        outputs: Some(
            outputs
                .into_iter()
                .map(|(group, paths)| (group.to_string(), paths))
                .collect(),
        ),
    }
}

fn one(path: &str) -> RawOutputPaths {
    RawOutputPaths::One(path.to_string())
}

#[test]
fn parses_valid_config() {
    let cfg = Config::from_raw(raw(
        &[
            ("adblock-a", "https://example.com/a"),
            ("adblock_b", "http://example.com/b"),
        ],
        vec![("adblock-a, adblock_b", one("/tmp/general.cdb"))],
    ))
    .unwrap();

    assert_eq!(cfg.sources.len(), 2);
    assert_eq!(cfg.outputs[0].source_ids, vec!["adblock-a", "adblock_b"]);
    assert_eq!(cfg.selected_source_ids().len(), 2);
}

#[test]
fn expands_output_path_array() {
    let cfg = Config::from_raw(raw(
        &[("a", "https://example.com/a")],
        vec![(
            "a",
            RawOutputPaths::Many(vec!["/tmp/a.cdb".to_string(), "/tmp/b.cdb".to_string()]),
        )],
    ))
    .unwrap();

    assert_eq!(cfg.outputs.len(), 2);
    assert_eq!(cfg.outputs[0].path, "/tmp/a.cdb");
    assert_eq!(cfg.outputs[1].path, "/tmp/b.cdb");
    assert_eq!(cfg.outputs[0].source_ids, vec!["a"]);
    assert_eq!(cfg.outputs[1].source_ids, vec!["a"]);
}

#[test]
fn expands_quoted_comma_output_path_string() {
    let cfg = Config::from_raw(raw(
        &[("a", "https://example.com/a")],
        vec![("a", one("'/tmp/a.cdb', '/tmp/b.cdb'"))],
    ))
    .unwrap();

    assert_eq!(cfg.outputs.len(), 2);
    assert_eq!(cfg.outputs[0].path, "/tmp/a.cdb");
    assert_eq!(cfg.outputs[1].path, "/tmp/b.cdb");
}

#[test]
fn rejects_empty_output_path_array() {
    let err = Config::from_raw(raw(
        &[("a", "https://example.com/a")],
        vec![("a", RawOutputPaths::Many(Vec::new()))],
    ))
    .unwrap_err();

    assert!(matches!(err, ConfigError::EmptyOutputPath { .. }));
}

#[test]
fn rejects_invalid_source_id() {
    let err = Config::from_raw(raw(
        &[("bad id", "https://example.com/a")],
        vec![("bad id", one("/tmp/a.cdb"))],
    ))
    .unwrap_err();
    assert!(matches!(err, ConfigError::InvalidSourceId(_)));
}

#[test]
fn rejects_unknown_output_source() {
    let err = Config::from_raw(raw(
        &[("a", "https://example.com/a")],
        vec![("a, b", one("/tmp/a.cdb"))],
    ))
    .unwrap_err();
    assert!(matches!(err, ConfigError::UnknownOutputSource { .. }));
}

#[test]
fn rejects_unsupported_scheme() {
    let err = Config::from_raw(raw(
        &[("a", "ftp://example.com/a")],
        vec![("a", one("/tmp/a.cdb"))],
    ))
    .unwrap_err();
    assert!(matches!(err, ConfigError::UnsupportedScheme { .. }));
}

#[test]
fn rejects_missing_or_empty_tables() {
    let missing_sources = RawConfig {
        sources: None,
        outputs: Some(vec![("a".to_string(), one("/tmp/a.cdb"))]),
    };
    assert!(matches!(
        Config::from_raw(missing_sources).unwrap_err(),
        ConfigError::EmptySources
    ));
    let missing_outputs = RawConfig {
        sources: Some(vec![("a".to_string(), "https://example.com/a".to_string())]),
        outputs: None,
    };
    assert!(matches!(
        Config::from_raw(missing_outputs).unwrap_err(),
        ConfigError::EmptyOutputs
    ));
    assert!(matches!(
        Config::from_raw(raw(&[], vec![("a", one("/tmp/a.cdb"))])).unwrap_err(),
        ConfigError::EmptySources
    ));
    assert!(matches!(
        Config::from_raw(raw(&[("a", "https://example.com/a")], vec![])).unwrap_err(),
        ConfigError::EmptyOutputs
    ));
}

#[test]
fn rejects_unparsable_url_and_empty_group_and_blank_path() {
    let err = Config::from_raw(raw(&[("a", "not a url")], vec![("a", one("/tmp/a.cdb"))]))
        .unwrap_err();
    match err {
        ConfigError::InvalidUrl { source_id, url } => {
            assert_eq!(source_id, "a");
            assert_eq!(url, "not a url");
        }
        other => panic!("{other:?}"),
    }
    let err = Config::from_raw(raw(&[("a", "https://example.com/a")], vec![(" , ", one("/tmp/a.cdb"))]))
        .unwrap_err();
    assert!(matches!(err, ConfigError::EmptyOutputGroup { .. }));
    let err = Config::from_raw(raw(&[("a", "https://example.com/a")], vec![("a", one("   "))]))
        .unwrap_err();
    assert!(matches!(err, ConfigError::EmptyOutputPath { .. }));
}

#[test]
fn unsupported_scheme_names_the_scheme() {
    match Config::from_raw(raw(&[("a", "FTP://example.com/a")], vec![("a", one("/tmp/a.cdb"))]))
        .unwrap_err()
    {
        ConfigError::UnsupportedScheme { source_id, scheme } => {
            assert_eq!(source_id, "a");
            assert_eq!(scheme, "ftp");
        }
        other => panic!("{other:?}"),
    }
}

#[test]
fn urls_are_kept_serialized() {
    let cfg = Config::from_raw(raw(
        &[("a", "HTTPS://Example.COM")],
        vec![("a", one("/tmp/a.cdb"))],
    ))
    .unwrap();
    assert_eq!(cfg.sources[0].url, "https://example.com/");
    assert_eq!(cfg.sources[0].id, "a");
}

#[test]
fn selected_source_ids_are_the_union_of_groups() {
    let cfg = Config::from_raw(raw(
        &[
            ("a", "https://example.com/a"),
            ("b", "https://example.com/b"),
            ("c", "https://example.com/c"),
        ],
        vec![("a", one("/tmp/y.cdb")), ("b, a", one("/tmp/x.cdb"))],
    ))
    .unwrap();
    let ids = cfg.selected_source_ids();
    assert_eq!(ids.as_slice(), &["a".to_string(), "b".to_string()]);
    assert!(!ids.contains("c"));
}

#[test]
fn quoted_list_needs_two_quoted_parts() {
    assert_eq!(
        parse_quoted_path_list("\"/a.cdb\", '/b.cdb'"),
        Some(vec!["/a.cdb".to_string(), "/b.cdb".to_string()])
    );
    assert_eq!(parse_quoted_path_list("'/a.cdb'"), None);
    assert_eq!(parse_quoted_path_list("'/a.cdb', /b.cdb"), None);
    assert_eq!(parse_quoted_path_list("', '"), None);
}

#[test]
fn output_group_parsing() {
    assert_eq!(parse_output_group(" a , ,b,"), vec!["a".to_string(), "b".to_string()]);
    assert!(is_valid_source_id("a-B_9"));
    assert!(!is_valid_source_id(""));
    assert!(!is_valid_source_id("a.b"));
}

#[test]
fn quoted_path_list_round_trips() {
    let ps = vec!["/tmp/a.cdb".to_string(), "/tmp/b c.cdb".to_string(), "/x'y".to_string()];
    let joined = ps.iter().map(|p| format!("'{p}'")).collect::<Vec<_>>().join(", ");
    assert_eq!(parse_quoted_path_list(&joined), Some(ps));
    assert_eq!(parse_quoted_path_list("/tmp/a.cdb"), None);
    assert_eq!(parse_quoted_path_list("'/a.cdb', '/b.cdb\""), None);
    assert_eq!(parse_quoted_path_list("'/a.cdb', x"), None);
}

#[test]
fn outputs_come_one_per_path_entry_by_entry() {
    let cfg = Config::from_raw(raw(
        &[("a", "https://example.com/a"), ("b", "https://example.com/b")],
        vec![
            ("a", RawOutputPaths::Many(vec!["/1.cdb".to_string(), "/2.cdb".to_string()])),
            ("a, b", one("'/3.cdb', '/4.cdb'")),
        ],
    ))
    .unwrap();
    let paths: Vec<&str> = cfg.outputs.iter().map(|o| o.path.as_str()).collect();
    assert_eq!(paths, vec!["/1.cdb", "/2.cdb", "/3.cdb", "/4.cdb"]);
    assert_eq!(cfg.outputs[0].group, "a");
    assert_eq!(cfg.outputs[3].group, "a, b");
    assert_eq!(cfg.outputs[3].source_ids, vec!["a", "b"]);
    let ids: Vec<&str> = cfg.sources.iter().map(|s| s.id.as_str()).collect();
    assert_eq!(ids, vec!["a", "b"]);
}
