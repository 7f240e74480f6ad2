use hostsmod::parse::{parse_hosts_file, try_parse_hosts, HostsPart};
use hostsmod::ip::IpAddress;

fn v4(a: u8, b: u8, c: u8, d: u8) -> IpAddress {
    IpAddress::V4(a, b, c, d)
}

fn v6(g: [u16; 8]) -> IpAddress {
    IpAddress::V6(g[0], g[1], g[2], g[3], g[4], g[5], g[6], g[7])
}

fn hosts(names: &[&str]) -> Vec<String> {
    names.iter().map(|s| s.to_string()).collect()
}

#[test]
fn test_parse_hosts_realistic() {
    let mut data = String::new();
    data.push_str("127.0.0.1\tlocalhost\n");
    data.push_str("127.0.1.1\tthismachine\n");
    data.push_str("::1\tlocalhost ip6-localhost ip6-loopback\n");
    data.push_str("ff02::1 ip6-allnodes\n");
    data.push_str("ff02::2 ip6-allrouters\n");
    data.push_str("# comment\n");
    data.push_str("\n");
    data.push_str("198.51.100.11\twww.employer.example\n");
    data.push_str("10.0.20.4\tintranet.someclub.example #  with trailing comment!\n");
    data.push_str("# 10.4.79.99\tdeactivated.host deactivated.host.1\n");
    data.push_str("    \n");

    let parsed_canon = vec![
        HostsPart::Entry(v4(127, 0, 0, 1), hosts(&["localhost"]), None),
        HostsPart::Entry(v4(127, 0, 1, 1), hosts(&["thismachine"]), None),
        HostsPart::Entry(
            v6([0, 0, 0, 0, 0, 0, 0, 1]),
            hosts(&["localhost", "ip6-localhost", "ip6-loopback"]),
            None,
        ),
        HostsPart::Entry(v6([0xff02, 0, 0, 0, 0, 0, 0, 1]), hosts(&["ip6-allnodes"]), None),
        HostsPart::Entry(v6([0xff02, 0, 0, 0, 0, 0, 0, 2]), hosts(&["ip6-allrouters"]), None),
        HostsPart::Comment(" comment".to_string()),
        HostsPart::Empty("".to_string()),
        HostsPart::Entry(v4(198, 51, 100, 11), hosts(&["www.employer.example"]), None),
        HostsPart::Entry(
            v4(10, 0, 20, 4),
            hosts(&["intranet.someclub.example"]),
            Some("  with trailing comment!".to_string()),
        ),
        HostsPart::CommentedEntry(
            v4(10, 4, 79, 99),
            hosts(&["deactivated.host", "deactivated.host.1"]),
            None,
        ),
        HostsPart::Empty("    ".to_string()),
        HostsPart::Empty("".to_string()),
    ];

    let parsed = parse_hosts_file(&data);
    assert!(parsed.0.is_empty(), "unparsed input!: {:#?}", parsed);
    assert_eq!(
        parsed_canon.len(),
        parsed.1.len(),
        "length of canonical test data differs from parsed result: expected: {}, found: {}",
        parsed_canon.len(),
        parsed.1.len()
    );
    for (idx, (canon, parsed)) in parsed_canon.iter().zip(parsed.1.iter()).enumerate() {
        if canon != parsed {
            panic!(
                "comparison failed at index {}, expected: {:?}, found: {:?}",
                idx, canon, parsed
            );
        }
    }
}

#[test]
fn test_parse_rejects_garbage() {
    let res = try_parse_hosts("127.0.0.1\tlocalhost\nnot!a@line\n");
    assert!(res.is_err());
    let err = res.err().unwrap();
    assert!(matches!(err, hostsmod::errors::HostsError::Parse(_)));
}

#[test]
fn test_parse_lone_hash_is_empty_comment() {
    // A bare `#` line is a comment capturing the empty text after the
    // marker, and it round-trips.
    let parts = try_parse_hosts("#\n").expect("parse");
    assert_eq!(parts[0], HostsPart::Comment("".to_string()));
    let rendered = hostsmod::render::generate_hosts_file(&parts);
    assert_eq!(rendered, "#\n\n");
    let reparsed = try_parse_hosts("#").expect("parse");
    assert_eq!(reparsed, vec![HostsPart::Comment("".to_string())]);
}

#[test]
fn test_parse_empty_trailing_comment() {
    // An entry may end with a bare `#`: an empty trailing comment.
    let parts = try_parse_hosts("10.0.0.5 foo #\n").expect("parse");
    assert_eq!(
        parts[0],
        HostsPart::Entry(v4(10, 0, 0, 5), hosts(&["foo"]), Some("".to_string()))
    );
}

#[test]
fn test_parse_crlf_and_nlcr_separators() {
    let parsed = try_parse_hosts("127.0.0.1\tlocalhost\r\n# note\n\r").expect("parse");
    assert_eq!(parsed[0], HostsPart::Entry(v4(127, 0, 0, 1), hosts(&["localhost"]), None));
    assert_eq!(parsed[1], HostsPart::Comment(" note".to_string()));
}

#[test]
fn test_parse_error_message() {
    let err = try_parse_hosts("!!\n").err().unwrap();
    let msg = err.message();
    assert!(msg.contains("remainder"));
}
