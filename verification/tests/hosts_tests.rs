use figma_net_ok::hosts::add_host_lines;
use figma_net_ok::hosts::add_hosts;
use figma_net_ok::hosts::filter_hosts_lines;
use figma_net_ok::hosts::reset_host;

fn line(s: &str) -> Vec<u8> {
    s.as_bytes().to_vec()
}

fn lines_of(xs: &[&str]) -> Vec<Vec<u8>> {
    xs.iter().map(|s| line(s)).collect()
}

fn pairs_of(xs: &[(&str, &str)]) -> Vec<(Vec<u8>, Vec<u8>)> {
    xs.iter().map(|(ip, host)| (line(ip), line(host))).collect()
}

#[test]
fn test_filter_hosts_lines() {
    let mut lines = lines_of(&[
        "# set by figma net ok",
        "127.0.0.1 localhost",
        "::1 localhost",
        "192.168.0.1 myrouter",
        "192.168.0.2 myprinter",
        "192.168.0.3 myserver",
        "192.168.0.4 mydatabase",
        "fe80::1%lo0 localhost",
        "ff02::fb ip6-allnodes",
        "ff02::1 ip6-allnodes",
        "ff02::2 ip6-allrouters",
    ]);
    let host_names = lines_of(&["myprinter", "myserver"]);

    let filtered = filter_hosts_lines(&mut lines, &host_names);

    assert!(filtered);
    assert_eq!(
        lines,
        lines_of(&[
            "127.0.0.1 localhost",
            "::1 localhost",
            "192.168.0.1 myrouter",
            "192.168.0.4 mydatabase",
            "fe80::1%lo0 localhost",
            "ff02::fb ip6-allnodes",
            "ff02::1 ip6-allnodes",
            "ff02::2 ip6-allrouters",
        ])
    );
}

#[test]
fn test_add_host_lines() {
    let mut lines = lines_of(&[
        "127.0.0.1 localhost",
        "::1 localhost",
        "192.168.0.1 myrouter",
        "fe80::1%lo0 localhost",
        "ff02::fb ip6-allnodes",
        "ff02::1 ip6-allnodes",
        "192.168.0.2 myprinter",
        "ff02::2 ip6-allrouters",
    ]);
    let hosts = pairs_of(&[
        ("192.168.0.2", "myprinter"),
        ("192.168.0.3", "myserver"),
        ("192.168.0.4", "mydatabase"),
    ]);

    let added = add_host_lines(&mut lines, &hosts);

    assert!(added);
    assert_eq!(
        lines,
        lines_of(&[
            "127.0.0.1 localhost",
            "::1 localhost",
            "192.168.0.1 myrouter",
            "fe80::1%lo0 localhost",
            "ff02::fb ip6-allnodes",
            "ff02::1 ip6-allnodes",
            "192.168.0.2 myprinter",
            "ff02::2 ip6-allrouters",
            "# set by figma net ok",
            "192.168.0.3 myserver",
            "192.168.0.4 mydatabase",
        ])
    );
}

#[test]
fn remove_is_idempotent() {
    let mut lines = lines_of(&[
        "127.0.0.1 localhost",
        "# set by figma net ok",
        "192.168.0.2 myprinter",
    ]);
    let names = lines_of(&["myprinter"]);

    let first = filter_hosts_lines(&mut lines, &names);
    assert!(first);
    let after_first = lines.clone();

    let second = filter_hosts_lines(&mut lines, &names);
    assert!(!second);
    assert_eq!(lines, after_first);
}

#[test]
fn add_same_pair_twice_single_occurrence() {
    let mut lines = lines_of(&["127.0.0.1 localhost"]);
    let hosts = pairs_of(&[("1.2.3.4", "example.com"), ("1.2.3.4", "example.com")]);

    let added = add_host_lines(&mut lines, &hosts);
    assert!(added);
    let occurrences = lines.iter().filter(|l| *l == &line("1.2.3.4 example.com")).count();
    assert_eq!(occurrences, 1);

    let added_again = add_host_lines(&mut lines, &hosts);
    assert!(!added_again);
    let occurrences = lines.iter().filter(|l| *l == &line("1.2.3.4 example.com")).count();
    assert_eq!(occurrences, 1);
}

#[test]
fn add_never_duplicates_marker() {
    let mut lines = lines_of(&["127.0.0.1 localhost"]);

    let first = add_hosts(&mut lines, &pairs_of(&[("1.2.3.4", "example.com")]));
    assert!(first);
    let second = add_hosts(&mut lines, &pairs_of(&[("5.6.7.8", "example.org")]));
    assert!(second);

    let markers = lines.iter().filter(|l| *l == &line("# set by figma net ok")).count();
    assert_eq!(markers, 1);
    assert_eq!(
        lines,
        lines_of(&[
            "127.0.0.1 localhost",
            "# set by figma net ok",
            "1.2.3.4 example.com",
            "5.6.7.8 example.org",
        ])
    );
}

#[test]
fn add_then_remove_round_trip() {
    let original = lines_of(&["127.0.0.1 localhost", "# comment", "::1 localhost"]);
    let mut lines = original.clone();

    let added = add_host_lines(&mut lines, &pairs_of(&[("1.2.3.4", "example.com")]));
    assert!(added);
    assert_ne!(lines, original);

    let removed = filter_hosts_lines(&mut lines, &lines_of(&["example.com"]));
    assert!(removed);
    assert_eq!(lines, original);
}

#[test]
fn remove_managed_block_scenario() {
    let mut lines = lines_of(&[
        "127.0.0.1 localhost",
        "# set by figma net ok",
        "192.168.0.2 myprinter",
        "192.168.0.3 myserver",
    ]);

    let changed = reset_host(&mut lines, &lines_of(&["myprinter", "myserver"]));

    assert!(changed);
    assert_eq!(lines, lines_of(&["127.0.0.1 localhost"]));
}

#[test]
fn removing_only_the_marker_still_reports_a_change() {
    let mut lines = lines_of(&["127.0.0.1 localhost", "# set by figma net ok"]);
    let changed = filter_hosts_lines(&mut lines, &lines_of(&["myprinter"]));
    assert!(changed);
    assert_eq!(lines, lines_of(&["127.0.0.1 localhost"]));
}

#[test]
fn remove_without_match_reports_no_change() {
    let mut lines = lines_of(&["127.0.0.1 localhost", "::1 localhost"]);
    let changed = reset_host(&mut lines, &lines_of(&["myprinter"]));
    assert!(!changed);
    assert_eq!(lines, lines_of(&["127.0.0.1 localhost", "::1 localhost"]));
}

#[test]
fn remove_keeps_blank_and_unrelated_comment_lines() {
    let mut lines = lines_of(&[
        "# a comment",
        "",
        "   ",
        "127.0.0.1 localhost",
        "# set by figma net ok",
        "1.2.3.4 example.com",
    ]);
    let changed = filter_hosts_lines(&mut lines, &lines_of(&["example.com"]));
    assert!(changed);
    assert_eq!(
        lines,
        lines_of(&["# a comment", "", "   ", "127.0.0.1 localhost"])
    );
}

#[test]
fn reset_module_adds_with_tab() {
    let mut lines = lines_of(&["127.0.0.1 localhost"]);
    let added =
        figma_net_ok::reset::add_hosts(&mut lines, &pairs_of(&[("1.2.3.4", "example.com")]));
    assert!(added);
    assert_eq!(
        lines,
        lines_of(&["127.0.0.1 localhost", "# set by figma net ok", "1.2.3.4\texample.com"])
    );
}

#[test]
fn reset_module_removes_like_hosts_module() {
    let mut lines = lines_of(&[
        "127.0.0.1 localhost",
        "# set by figma net ok",
        "1.2.3.4\texample.com",
    ]);
    let changed = figma_net_ok::reset::reset_host(&mut lines, &lines_of(&["example.com"]));
    assert!(changed);
    assert_eq!(lines, lines_of(&["127.0.0.1 localhost"]));
}

#[test]
fn matching_is_on_first_hostname_token_only() {
    let mut lines = lines_of(&[
        "1.2.3.4 keepme example.com",
        "5.6.7.8 example.com alias",
    ]);
    let changed = filter_hosts_lines(&mut lines, &lines_of(&["example.com"]));
    assert!(changed);
    assert_eq!(lines, lines_of(&["1.2.3.4 keepme example.com"]));
}
