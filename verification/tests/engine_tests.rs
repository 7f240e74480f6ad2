use hostsmod::config::HostsmodConfig;
use hostsmod::engine::{compact_empty_runs, hosts_parts_equal, perform_actions, trim_hosts_parts};
use hostsmod::errors::HostsError;
use hostsmod::ip::IpAddress;
use hostsmod::opts::{Action, HostsArgs};
use hostsmod::parse::try_parse_hosts;
use hostsmod::render::generate_hosts_file;

fn args(actions: Vec<Action>) -> HostsArgs {
    HostsArgs { dry_run: false, verbose: false, generate_sample_config: false, actions }
}

fn config(whitelist: &[&str]) -> HostsmodConfig {
    HostsmodConfig {
        whitelist: whitelist.iter().map(|s| s.to_string()).collect(),
        enable_dangerous_operations: false,
    }
}

fn run(input: &str, actions: Vec<Action>, wl: &[&str]) -> Result<String, HostsError> {
    let mut parts = try_parse_hosts(input)?;
    trim_hosts_parts(&mut parts);
    let mut opts = args(actions);
    let cfg = config(wl);
    perform_actions(&mut opts, &mut parts, &cfg)?;
    trim_hosts_parts(&mut parts);
    compact_empty_runs(&mut parts);
    Ok(generate_hosts_file(&parts))
}

#[test]
fn define_appends_after_existing_lines() {
    let input = "127.0.0.1\tlocalhost\n::1\tlocalhost ip6-localhost\n";
    let out = run(
        input,
        vec![Action::Define(IpAddress::V4(203, 0, 113, 5), "foo".to_string())],
        &["foo"],
    )
    .expect("run");
    assert_eq!(
        out,
        "127.0.0.1           \tlocalhost\n\
::1                 \tlocalhost ip6-localhost\n\
203.0.113.5         \tfoo\n"
    );
}

#[test]
fn remove_not_whitelisted_fails_and_changes_nothing() {
    let input = "127.0.0.1\tlocalhost\n::1\tlocalhost ip6-localhost\n";
    let mut parts = try_parse_hosts(input).expect("parse");
    trim_hosts_parts(&mut parts);
    let snapshot = parts.clone();
    let mut opts = args(vec![Action::Remove("localhost".to_string())]);
    let cfg = config(&["foo"]);
    let res = perform_actions(&mut opts, &mut parts, &cfg);
    assert!(matches!(res, Err(HostsError::NotWhitelisted(_))));
    assert!(hosts_parts_equal(&parts, &snapshot));
}

#[test]
fn remove_keeps_siblings() {
    let out = run(
        "10.0.0.5\tfoo bar\n",
        vec![Action::Remove("foo".to_string())],
        &["foo"],
    )
    .expect("run");
    assert_eq!(out, "10.0.0.5            \tbar\n");
}

#[test]
fn remove_deletes_single_host_entry() {
    let out = run(
        "10.0.0.5\tfoo\n10.0.0.6\tbar\n",
        vec![Action::Remove("foo".to_string())],
        &["foo"],
    )
    .expect("run");
    assert_eq!(out, "10.0.0.6            \tbar\n");
}

#[test]
fn define_is_idempotent() {
    let input = "127.0.0.1\tlocalhost\n";
    let once = run(
        input,
        vec![Action::Define(IpAddress::V4(10, 1, 2, 3), "foo".to_string())],
        &["foo"],
    )
    .expect("run");
    let twice = run(
        input,
        vec![
            Action::Define(IpAddress::V4(10, 1, 2, 3), "foo".to_string()),
            Action::Define(IpAddress::V4(10, 1, 2, 3), "foo".to_string()),
        ],
        &["foo"],
    )
    .expect("run");
    assert_eq!(once, twice);
}

#[test]
fn define_duplicate_family_fails() {
    let input = "10.0.0.5\tfoo\n";
    let res = run(
        input,
        vec![Action::Define(IpAddress::V4(10, 9, 9, 9), "foo".to_string())],
        &["foo"],
    );
    assert!(matches!(res, Err(HostsError::DuplicateFamily(_, _))));
    // A different family is welcome.
    let ok = run(
        input,
        vec![Action::Define(IpAddress::V6(0x2001, 0xdb8, 0, 0, 0, 0, 0, 5), "foo".to_string())],
        &["foo"],
    );
    assert!(ok.is_ok());
}

#[test]
fn define_exclusive_replaces_all_mappings() {
    let input = "10.0.0.5\tfoo bar\n10.0.0.6\tfoo\n";
    let out = run(
        input,
        vec![Action::DefineExclusive(IpAddress::V4(192, 0, 2, 7), "foo".to_string())],
        &["foo"],
    )
    .expect("run");
    // The fresh entry stands where the first mapping stood; the other
    // mapping of `foo` is gone.
    assert_eq!(out, "192.0.2.7           \tfoo\n");
}

#[test]
fn trim_and_compact_blank_lines() {
    let mut parts = try_parse_hosts("\n\n127.0.0.1\tlocalhost\n\n\n").expect("parse");
    trim_hosts_parts(&mut parts);
    compact_empty_runs(&mut parts);
    let out = generate_hosts_file(&parts);
    assert_eq!(out, "\n127.0.0.1           \tlocalhost\n");
}

#[test]
fn round_trip_of_parsed_file() {
    let input = "127.0.0.1\tlocalhost\n# note\n\n::1 ip6-localhost #x\n# 10.4.79.99 dead\n";
    let mut parts = try_parse_hosts(input).expect("parse");
    trim_hosts_parts(&mut parts);
    let rendered = generate_hosts_file(&parts);
    let mut reparsed = try_parse_hosts(&rendered).expect("reparse");
    trim_hosts_parts(&mut reparsed);
    assert!(hosts_parts_equal(&parts, &reparsed));
    // Rendering is a fixed point from then on.
    assert_eq!(rendered, generate_hosts_file(&reparsed));
}
