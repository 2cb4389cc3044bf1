use cdbgen_rs::cdb_writer::{cdb_key, domain_to_wire, output_dir_of, temp_output_path};
use cdbgen_rs::config::OutputKeyFormat;

#[test]
fn wire_format_of_a_domain() {
    assert_eq!(
        domain_to_wire("example.com"),
        Some(b"\x07example\x03com\x00".to_vec())
    );
}

#[test]
fn wire_format_rejects_empty_and_long_labels() {
    assert_eq!(domain_to_wire(""), None);
    assert_eq!(domain_to_wire("a..b"), None);
    assert_eq!(domain_to_wire(&format!("{}.com", "a".repeat(64))), None);
    let max = format!("{}.{}.{}.{}", "a".repeat(63), "b".repeat(63), "c".repeat(63), "d".repeat(61));
    assert_eq!(domain_to_wire(&max).map(|w| w.len()), Some(255));
    let over = format!("{}.{}.{}.{}", "a".repeat(63), "b".repeat(63), "c".repeat(63), "d".repeat(62));
    assert_eq!(domain_to_wire(&over), None);
}

#[test]
fn keys_in_each_format() {
    assert_eq!(
        cdb_key("a.example", OutputKeyFormat::Plain),
        Some(b"a.example".to_vec())
    );
    assert_eq!(
        cdb_key("a.example", OutputKeyFormat::Wire),
        Some(b"\x01a\x07example\x00".to_vec())
    );
    assert_eq!(OutputKeyFormat::Wire.as_str(), "wire");
    assert_eq!(OutputKeyFormat::default(), OutputKeyFormat::Wire);
}

#[test]
fn temporary_output_sits_beside_the_output() {
    assert_eq!(
        temp_output_path("/var/lib/cdbgen/general.cdb", 42, 1700000000123456789),
        "/var/lib/cdbgen/.general.cdb.42.1700000000123456789.tmp"
    );
    assert_eq!(temp_output_path("out.cdb", 7, 0), "./.out.cdb.7.0.tmp");
    assert_eq!(temp_output_path("/", 1, 10), "./.output.cdb.1.10.tmp");
}

#[test]
fn output_directory_defaults_to_current() {
    assert_eq!(output_dir_of("/var/lib/cdbgen/general.cdb"), "/var/lib/cdbgen");
    assert_eq!(output_dir_of("out.cdb"), ".");
    assert_eq!(output_dir_of("/out.cdb"), "/");
    assert_eq!(output_dir_of("/"), ".");
}
