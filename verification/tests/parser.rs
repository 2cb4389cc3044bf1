use cdbgen_rs::parser::{detect_source_format, parse_source_bytes, SourceFormat};

#[test]
fn parses_plain_hosts_and_adblock() {
    let parsed = parse_source_bytes(
        br#"
            # comment
            Example.COM
            0.0.0.0 ads.example.com alias.example.net # inline
            127.0.0.1 tracker.example.net
            ||agh.example.org^
            @@||allow.example.org^
            /regex/
            ||path.example/path.js
            ||wild*.example^
            "#,
    );

    assert!(parsed.blocks.contains("example.com"));
    assert!(parsed.blocks.contains("ads.example.com"));
    assert!(parsed.blocks.contains("alias.example.net"));
    assert!(parsed.blocks.contains("tracker.example.net"));
    assert!(parsed.blocks.contains("agh.example.org"));
    assert!(parsed.allows.contains("allow.example.org"));
    assert!(!parsed.blocks.contains("path.example"));
    assert_eq!(parsed.stats.comment_lines, 1);
    assert!(parsed.stats.rejected_lines >= 3);
}

#[test]
fn autodetects_supported_formats() {
    assert_eq!(
        parse_source_bytes(b"0.0.0.0 ads.example\n").detected_format,
        SourceFormat::Hostfile
    );
    assert_eq!(
        parse_source_bytes(b"||ads.example^\n@@||allow.example^\n").detected_format,
        SourceFormat::Adblock
    );
    assert_eq!(
        parse_source_bytes(br#"local-zone: "ads.example." always_null"#).detected_format,
        SourceFormat::Unbound
    );
    assert_eq!(
        parse_source_bytes(b"$TTL 3600\nads.example CNAME .\n").detected_format,
        SourceFormat::Rpz
    );
}

#[test]
fn parses_hostfile_field_one_field_two_and_auto() {
    let parsed = parse_source_bytes(
        br#"
            ads-one.example 0.0.0.0
            127.0.0.1 ads-two.example alias-two.example
            plain.example
            "#,
    );

    assert!(parsed.blocks.contains("ads-one.example"));
    assert!(parsed.blocks.contains("ads-two.example"));
    assert!(parsed.blocks.contains("alias-two.example"));
    assert!(parsed.blocks.contains("plain.example"));
}

#[test]
fn parses_unbound_and_rpz_lines() {
    let parsed = parse_source_bytes(
        br#"
            server:
            local-zone: "ads.example.com." always_null
            local-data: "tracker.example.net. A 0.0.0.0"
            $TTL 3600
            @ SOA localhost. root.localhost. 1 14400 3600 86400 3600
            example.org CNAME .
            *.wild.example.org CNAME .
            not-a-policy.example CNAME passthru.
            a-record.example A 0.0.0.0
            "#,
    );

    assert!(parsed.blocks.contains("ads.example.com"));
    assert!(parsed.blocks.contains("tracker.example.net"));
    assert!(parsed.blocks.contains("example.org"));
    assert!(parsed.blocks.contains("wild.example.org"));
    assert!(!parsed.blocks.contains("not-a-policy.example"));
    assert!(!parsed.blocks.contains("a-record.example"));
    assert!(!parsed.blocks.contains("localhost"));
}

#[test]
fn skips_whole_line_adblock_comments() {
    let parsed = parse_source_bytes(b"! title\n; comment\n// comment\n# comment\n");
    assert!(parsed.blocks.is_empty());
    assert_eq!(parsed.stats.comment_lines, 4);
}

#[test]
fn tracks_duplicates() {
    let parsed =
        parse_source_bytes(b"example.com\nExample.COM.\n@@||allow.example^\n@@allow.example\n");
    assert_eq!(parsed.blocks.len(), 1);
    assert_eq!(parsed.allows.len(), 1);
    assert_eq!(parsed.stats.duplicate_blocks, 1);
    assert_eq!(parsed.stats.duplicate_allows, 1);
}

#[test]
fn counts_every_kind_of_line() {
    let parsed = parse_source_bytes(b"a.example\n\n# c\nnot a domain at all\r\nb.example\r\n");
    assert_eq!(parsed.stats.total_lines, 5);
    assert_eq!(parsed.stats.blank_lines, 1);
    assert_eq!(parsed.stats.comment_lines, 1);
    assert_eq!(parsed.stats.rejected_lines, 1);
    assert_eq!(parsed.stats.accepted_blocks, 2);
    assert_eq!(parsed.stats.accepted_allows, 0);
    assert_eq!(parsed.stats.duplicate_blocks, 0);
    assert!(parsed.blocks.contains("b.example"));
}

#[test]
fn strips_byte_order_mark_on_first_line_only() {
    let parsed = parse_source_bytes("\u{feff}first.example\nsecond.example\n".as_bytes());
    assert!(parsed.blocks.contains("first.example"));
    assert!(parsed.blocks.contains("second.example"));
    assert_eq!(parsed.stats.rejected_lines, 0);
}

#[test]
fn blocks_iterate_sorted_without_duplicates() {
    let parsed = parse_source_bytes(b"z.example\na.example\nm.example\na.example\n");
    let got: Vec<&str> = parsed.blocks.as_slice().iter().map(|s| s.as_str()).collect();
    assert_eq!(got, vec!["a.example", "m.example", "z.example"]);
    assert_eq!(parsed.stats.duplicate_blocks, 1);
}

#[test]
fn hosts_row_after_ipv6_address() {
    let parsed = parse_source_bytes(b"::1 ads.example tracker.example\n");
    assert!(parsed.blocks.contains("ads.example"));
    assert!(parsed.blocks.contains("tracker.example"));
}

#[test]
fn adblock_rules_with_options_and_anchors() {
    let parsed = parse_source_bytes(
        b"||opt.example^$third-party\n|http://url.example^\n|bar.example|\nexample.net##.ad\nbare.example^\n",
    );
    assert!(parsed.blocks.contains("opt.example"));
    assert!(!parsed.blocks.contains("url.example"));
    assert!(parsed.blocks.contains("bar.example"));
    assert!(!parsed.blocks.contains("example.net"));
    assert!(parsed.blocks.contains("bare.example"));
}

#[test]
fn undecodable_bytes_are_replaced_not_fatal() {
    let parsed = parse_source_bytes(b"good.example\n\xff\xfe.example\n");
    assert!(parsed.blocks.contains("good.example"));
    assert_eq!(parsed.stats.total_lines, 2);
}

#[test]
fn detection_ties_go_to_the_later_format() {
    // One hosts point and nothing else: hosts.
    assert_eq!(detect_source_format("plain.example\n"), SourceFormat::Hostfile);
    // Nothing scores at all: hosts.
    assert_eq!(detect_source_format("# only a comment\n"), SourceFormat::Hostfile);
    // Unbound rows score 4 each and beat everything else here.
    assert_eq!(
        detect_source_format("server:\nlocal-zone: \"a.example\" always_null\n"),
        SourceFormat::Unbound
    );
}

#[test]
fn source_format_names() {
    assert_eq!(SourceFormat::Hostfile.as_str(), "hostfile");
    assert_eq!(SourceFormat::Adblock.as_str(), "adblock");
    assert_eq!(SourceFormat::Unbound.as_str(), "unbound");
    assert_eq!(SourceFormat::Rpz.as_str(), "rpz");
}

#[test]
fn blank_and_comment_lines_keep_the_detected_format() {
    for t in [
        "0.0.0.0 ads.example",
        "||ads.example^\n@@||allow.example^",
        "local-zone: \"ads.example.\" always_null",
        "$TTL 3600\nads.example CNAME .",
        "",
        "example.com\r",
    ] {
        assert_eq!(
            detect_source_format(&format!("{t}\n# note\n\n")),
            detect_source_format(t),
            "{t:?}"
        );
        assert_eq!(
            detect_source_format(&format!("{t}\n! title\n  \n// c\n; c")),
            detect_source_format(t),
            "{t:?}"
        );
    }
}
