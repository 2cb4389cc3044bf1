use cdbgen_rs::normalize::{normalize_ascii, normalize_domain};

#[test]
fn lowercases_and_trims_trailing_dot() {
    assert_eq!(
        normalize_domain(" Example.COM. "),
        Some("example.com".to_string())
    );
}

#[test]
fn converts_idna() {
    assert_eq!(
        normalize_domain("bücher.example"),
        Some("xn--bcher-kva.example".to_string())
    );
}

#[test]
fn rejects_invalid_domains() {
    for input in [
        "",
        "localhost",
        "127.0.0.1",
        "*.example.com",
        "-bad.example",
        "bad-.example",
        "bad_label.example",
        "example.com/path",
    ] {
        assert_eq!(normalize_domain(input), None, "{input}");
    }
}

#[test]
fn ascii_step_lowers_and_checks_labels() {
    assert_eq!(normalize_ascii("A.Example"), Some("a.example".to_string()));
    assert_eq!(normalize_ascii("a..example"), None);
    assert_eq!(normalize_ascii("10.0.0.1"), None);
    let long_label = format!("{}.example", "a".repeat(64));
    assert_eq!(normalize_ascii(&long_label), None);
    let ok_label = format!("{}.example", "a".repeat(63));
    assert_eq!(normalize_ascii(&ok_label), Some(ok_label.clone()));
    let too_long = format!("{}.{}.{}.{}", "a".repeat(63), "b".repeat(63), "c".repeat(63), "d".repeat(62));
    assert_eq!(too_long.len(), 254);
    assert_eq!(normalize_ascii(&too_long), None);
}

#[test]
fn several_trailing_dots_are_dropped() {
    assert_eq!(normalize_domain("example.org..."), Some("example.org".to_string()));
}

#[test]
fn ip_literals_are_not_domains() {
    assert_eq!(normalize_domain("10.1.2.3"), None);
    assert_eq!(normalize_ascii("192.168.0.1"), None);
    assert_eq!(normalize_ascii("192.168.0.1.example"), Some("192.168.0.1.example".to_string()));
}

#[test]
fn normalized_names_normalize_to_themselves() {
    for name in ["example.com", "a-b.example.org", "x1.y2.example", "example.com"] {
        let once = normalize_domain(name).unwrap();
        assert_eq!(once, name);
        assert_eq!(normalize_domain(&once), Some(once.clone()));
    }
    let once = normalize_domain(" Bücher.Example. ").unwrap();
    assert_eq!(normalize_domain(&once), Some(once.clone()));
}
