use figma_net_ok::geo::geo_label;
use figma_net_ok::platform::hosts_path;
use figma_net_ok::platform::Platform;
use figma_net_ok::pool::build_pool;
use figma_net_ok::pool::LookupError;
use figma_net_ok::pool::ServerLookup;

fn b(s: &str) -> Vec<u8> {
    s.as_bytes().to_vec()
}

fn answer(label: &str, ips: &[&str]) -> ServerLookup {
    ServerLookup { label: b(label), outcome: Ok(ips.iter().map(|ip| b(ip)).collect()) }
}

fn failure(label: &str, e: LookupError) -> ServerLookup {
    ServerLookup { label: b(label), outcome: Err(e) }
}

#[test]
fn pool_concatenates_in_server_order_with_duplicates() {
    let results = vec![
        answer("Google DNS", &["1.1.1.1", "2.2.2.2"]),
        answer("Cloudflare DNS", &["2.2.2.2"]),
        answer("Quad9 DNS", &[]),
        answer("114 DNS", &["3.3.3.3"]),
    ];
    let pool = build_pool(&results).unwrap();
    let got: Vec<(Vec<u8>, Vec<u8>)> =
        pool.into_iter().map(|c| (c.ip, c.source)).collect();
    assert_eq!(
        got,
        vec![
            (b("1.1.1.1"), b("Google DNS")),
            (b("2.2.2.2"), b("Google DNS")),
            (b("2.2.2.2"), b("Cloudflare DNS")),
            (b("3.3.3.3"), b("114 DNS")),
        ]
    );
}

#[test]
fn pool_build_is_fail_fast_with_first_error() {
    let results = vec![
        answer("Google DNS", &["1.1.1.1"]),
        failure("Quad9 DNS", LookupError::ResolveFailed),
        failure("114 DNS", LookupError::InvalidServerAddress),
    ];
    assert!(matches!(build_pool(&results), Err(LookupError::ResolveFailed)));
}

#[test]
fn pool_build_reports_config_error() {
    let results = vec![failure("bad server", LookupError::InvalidServerAddress)];
    assert!(matches!(build_pool(&results), Err(LookupError::InvalidServerAddress)));
}

#[test]
fn empty_server_list_gives_empty_pool() {
    let pool = build_pool(&Vec::new()).unwrap();
    assert!(pool.is_empty());
}

#[test]
fn geo_label_joins_fields_with_commas() {
    let label = geo_label(Some((b("CN"), b("China"), b("Shanghai"))));
    assert_eq!(label, b("CN,China,Shanghai"));
}

#[test]
fn geo_label_falls_back_on_failure() {
    assert_eq!(geo_label(None), b("unknown region"));
}

#[test]
fn hosts_path_is_fixed_per_platform() {
    assert_eq!(hosts_path(Platform::Linux), Some(b("/etc/hosts")));
    assert_eq!(hosts_path(Platform::MacOs), Some(b("/etc/hosts")));
    assert_eq!(
        hosts_path(Platform::Windows),
        Some(b("C:\\Windows\\System32\\drivers\\etc\\hosts"))
    );
    assert_eq!(hosts_path(Platform::Unsupported), None);
}
