use figma_net_ok::pool::IpCandidate;
use figma_net_ok::race::next_timeout;
use figma_net_ok::race::probe_outcome;
use figma_net_ok::race::race_outcome;
use figma_net_ok::race::race_record;
use figma_net_ok::race::race_select;
use figma_net_ok::race::race_start;
use figma_net_ok::race::PROBE_CEILING_MS;
use figma_net_ok::race::SENTINEL_MS;

fn candidates_of(ips: &[&str]) -> Vec<IpCandidate> {
    ips.iter()
        .map(|ip| IpCandidate { ip: ip.as_bytes().to_vec(), source: b"test".to_vec() })
        .collect()
}

#[test]
fn first_timeout_is_the_full_ceiling() {
    let st = race_start();
    assert_eq!(st.best_time, PROBE_CEILING_MS);
    assert_eq!(next_timeout(st.best_time), PROBE_CEILING_MS);
}

#[test]
fn timeout_is_best_plus_step_capped() {
    assert_eq!(next_timeout(100), 300);
    assert_eq!(next_timeout(5300), 5500);
    assert_eq!(next_timeout(5400), 5500);
    assert_eq!(next_timeout(0), 200);
}

#[test]
fn winning_time_never_exceeds_ceiling() {
    assert_eq!(race_select(&vec![6000, 7000, 9000]), Some((0, PROBE_CEILING_MS)));
    let r = race_select(&vec![300, 200, 450]).unwrap();
    assert!(r.1 <= PROBE_CEILING_MS);
    assert_eq!(r, (1, 200));
}

#[test]
fn later_tie_wins() {
    assert_eq!(race_select(&vec![400, 250, 250]), Some((2, 250)));
    assert_eq!(race_select(&vec![250, 250]), Some((1, 250)));
    assert_eq!(race_select(&vec![250, 250, 300]), Some((1, 250)));
}

#[test]
fn empty_candidate_pool_has_no_winner() {
    assert_eq!(race_select(&vec![]), None);
    let outcome = race_outcome(&Vec::new(), &Vec::new(), b"unknown region".to_vec());
    assert!(outcome.is_none());
}

#[test]
fn all_probes_failed_names_first_candidate() {
    let times = vec![SENTINEL_MS, SENTINEL_MS, SENTINEL_MS];
    assert_eq!(race_select(&times), Some((0, PROBE_CEILING_MS)));

    let cands = candidates_of(&["1.1.1.1", "2.2.2.2", "3.3.3.3"]);
    let outcome = race_outcome(&cands, &times, b"unknown region".to_vec()).unwrap();
    assert_eq!(outcome.ip, b"1.1.1.1".to_vec());
    assert_eq!(outcome.time_ms, PROBE_CEILING_MS);
    assert_eq!(outcome.label, b"unknown region".to_vec());
}

#[test]
fn race_state_machine_runs_one_race() {
    let times: Vec<u64> = vec![300, 200, 250, 200];
    let mut st = race_start();
    let mut granted: Vec<u64> = Vec::new();
    for t in &times {
        granted.push(next_timeout(st.best_time));
        race_record(&mut st, *t);
    }
    // the first probe gets the ceiling, each later one min(best + 200, 5500)
    assert_eq!(granted, vec![5500, 500, 400, 400]);
    // a time equal to the best overwrites it: the last 200 wins
    assert_eq!(st.best_index, 3);
    assert_eq!(st.best_time, 200);
    assert_eq!(st.probed, 4);
}

#[test]
fn probe_outcome_maps_failure_to_sentinel() {
    assert_eq!(probe_outcome(Some(123)), 123);
    assert_eq!(probe_outcome(None), SENTINEL_MS);
    assert_eq!(SENTINEL_MS, 99999);
}

#[test]
fn race_outcome_picks_winning_candidate() {
    let cands = candidates_of(&["1.1.1.1", "2.2.2.2", "3.3.3.3"]);
    let outcome = race_outcome(&cands, &vec![400, 120, 300], b"CN,China,Hangzhou".to_vec()).unwrap();
    assert_eq!(outcome.ip, b"2.2.2.2".to_vec());
    assert_eq!(outcome.time_ms, 120);
    assert_eq!(outcome.label, b"CN,China,Hangzhou".to_vec());
}
