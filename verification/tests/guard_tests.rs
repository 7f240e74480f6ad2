use hostsmod::config::{dont_touch_entries, HostsmodConfig};
use hostsmod::ip::{HostsPartFamily, IpAddress};
use hostsmod::errors::HostsError;
use hostsmod::guard::{check_untouchable, protected_presence, verify_hosts_integrity};
use hostsmod::parse::try_parse_hosts;

const BASE: &str = "127.0.0.1\tlocalhost\n\
127.0.1.1\tbox\n\
::1\tlocalhost ip6-localhost ip6-loopback\n\
ff02::1 ip6-allnodes\n\
ff02::2 ip6-allrouters\n";

#[test]
fn presence_vector_sees_all_protected_mappings() {
    let parts = try_parse_hosts(BASE).expect("parse");
    let table = dont_touch_entries("box");
    let presence = protected_presence(&parts, &table);
    assert_eq!(presence, vec![true; 7]);
    // With another machine name, its row is absent.
    let other = dont_touch_entries("elsewhere");
    let presence2 = protected_presence(&parts, &other);
    assert_eq!(presence2, vec![true, false, true, true, true, true, true]);
}

#[test]
fn untouchable_rejects_rebound_protected_hostname() {
    // `localhost` bound to a foreign address is a direct violation.
    let parts = try_parse_hosts("10.1.2.3\tlocalhost\n").expect("parse");
    let table = dont_touch_entries("box");
    assert!(!check_untouchable(&parts, &table));
    // Bound to the alternate loopback it is explained by the table itself.
    let fine = try_parse_hosts("127.0.0.1\tlocalhost\n::1 localhost\n").expect("parse");
    assert!(check_untouchable(&fine, &table));
}

#[test]
fn integrity_detects_lost_protected_mapping() {
    let before = try_parse_hosts(BASE).expect("parse");
    let after = try_parse_hosts(
        "127.0.0.1\tlocalhost\n\
::1\tlocalhost ip6-localhost ip6-loopback\n\
ff02::1 ip6-allnodes\n\
ff02::2 ip6-allrouters\n",
    )
    .expect("parse");
    let table = dont_touch_entries("box");
    let res = verify_hosts_integrity(&before, &after, &table, false);
    assert!(matches!(res, Err(HostsError::ProtectedMembershipChanged)));
    // The dangerous-operations flag bypasses the guard entirely.
    let bypass = verify_hosts_integrity(&before, &after, &table, true);
    assert!(bypass.is_ok());
}

#[test]
fn integrity_detects_altered_protected_line() {
    let before = try_parse_hosts(BASE).expect("parse");
    let after = try_parse_hosts(BASE.replace("127.0.1.1\tbox", "10.9.9.9\tbox").as_str())
        .expect("parse");
    let table = dont_touch_entries("box");
    let res = verify_hosts_integrity(&before, &after, &table, false);
    assert!(matches!(res, Err(HostsError::UntouchableChanged)));
}

#[test]
fn integrity_accepts_unrelated_changes() {
    let before = try_parse_hosts(BASE).expect("parse");
    let mut text = String::from(BASE);
    text.push_str("192.0.2.1\tunrelated.example\n");
    let after = try_parse_hosts(&text).expect("parse");
    let table = dont_touch_entries("box");
    assert!(verify_hosts_integrity(&before, &after, &table, false).is_ok());
}

#[test]
fn config_default_and_whitelist() {
    let cfg = HostsmodConfig::default();
    assert!(cfg.whitelist.is_empty());
    assert!(!cfg.enable_dangerous_operations);
    assert!(!hostsmod::safely_false());
    let cfg2 = HostsmodConfig {
        whitelist: vec!["foo".to_string()],
        enable_dangerous_operations: false,
    };
    assert!(cfg2.is_whitelisted("foo"));
    assert!(!cfg2.is_whitelisted("bar"));
}

#[test]
fn error_messages_name_the_cause() {
    let e = HostsError::NotWhitelisted("foo".to_string());
    assert_eq!(e.message(), "HOST \"foo\" not whitelisted!");
    assert!(HostsError::UntouchableChanged.message().contains("untouchable"));
}

#[test]
fn part_queries() {
    let parts = try_parse_hosts("127.0.0.1\tlocalhost\n# 10.0.0.1 dead\n# note\n\n")
        .expect("parse");
    assert!(parts[0].matches_ip(&IpAddress::V4(127, 0, 0, 1)));
    assert!(parts[0].matches_hostname("localhost"));
    assert!(!parts[0].matches_hostname("other"));
    assert_eq!(parts[0].get_family(), Some(HostsPartFamily::IPv4));
    assert!(!parts[0].is_empty());
    assert!(!parts[0].is_commented());
    assert!(parts[1].is_commented());
    assert!(parts[1].matches_hostname("dead"));
    assert_eq!(parts[2].get_family(), None);
    assert!(parts[3].is_empty());
}
