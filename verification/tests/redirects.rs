use product_archiver::fetcher::ChainOutcome;
use product_archiver::fetcher::FetchConfig;
use product_archiver::fetcher::RedirectDecision;
use product_archiver::fetcher::decide_redirect;
use product_archiver::fetcher::follow_chain;
use product_archiver::fetcher::str_eq;

fn hosts(n: usize, host: &str) -> Vec<String> {
    let mut v: Vec<String> = Vec::new();
    let mut i: usize = 0;
    while i < n {
        v.push(host.to_string());
        i += 1;
    }
    v
}

#[test]
fn standard_config_values() {
    let cfg = FetchConfig::standard();
    assert_eq!(cfg.redirect_cap, 100usize);
    assert_eq!(cfg.blocked_host, "example.domain");
    assert!(cfg.user_agent.starts_with("Mozilla/5.0"));
}

#[test]
fn chain_of_101_hops_hits_redirect_limit() {
    let cfg = FetchConfig::standard();
    let chain = hosts(101, "a.example");
    assert_eq!(follow_chain(&cfg, &chain), ChainOutcome::TooManyRedirects);
}

#[test]
fn chain_of_100_hops_is_fully_followed() {
    let cfg = FetchConfig::standard();
    let chain = hosts(100, "a.example");
    assert_eq!(follow_chain(&cfg, &chain), ChainOutcome::Followed);
    let empty = hosts(0, "a.example");
    assert_eq!(follow_chain(&cfg, &empty), ChainOutcome::Followed);
}

#[test]
fn chain_stops_at_first_blocked_host() {
    let cfg = FetchConfig::standard();
    let mut chain = hosts(50, "a.example");
    chain[5] = "example.domain".to_string();
    chain[20] = "example.domain".to_string();
    assert_eq!(follow_chain(&cfg, &chain), ChainOutcome::Stopped(5));
}

#[test]
fn blocked_host_beyond_cap_still_hits_limit() {
    let cfg = FetchConfig::standard();
    let mut chain = hosts(150, "a.example");
    chain[120] = "example.domain".to_string();
    assert_eq!(follow_chain(&cfg, &chain), ChainOutcome::TooManyRedirects);
}

#[test]
fn single_hop_decisions() {
    let cfg = FetchConfig::standard();
    assert!(matches!(decide_redirect(&cfg, 101, Some("a.example")), RedirectDecision::Fail));
    assert!(matches!(decide_redirect(&cfg, 100, Some("a.example")), RedirectDecision::Follow));
    assert!(matches!(decide_redirect(&cfg, 5, Some("example.domain")), RedirectDecision::Stop));
    assert!(matches!(decide_redirect(&cfg, 5, None), RedirectDecision::Follow));
    assert!(matches!(decide_redirect(&cfg, 101, Some("example.domain")), RedirectDecision::Fail));
}

#[test]
fn string_comparison_is_exact() {
    assert!(str_eq("example.domain", "example.domain"));
    assert!(!str_eq("example.domain", "example.domain."));
    assert!(!str_eq("example.domain", "Example.domain"));
    assert!(str_eq("", ""));
}

#[test]
fn blocked_host_at_cap_boundary() {
    let cfg = FetchConfig::standard();
    let mut chain = hosts(101, "a.example");
    chain[99] = "example.domain".to_string();
    assert_eq!(follow_chain(&cfg, &chain), ChainOutcome::Stopped(99));
    let mut chain2 = hosts(101, "a.example");
    chain2[100] = "example.domain".to_string();
    assert_eq!(follow_chain(&cfg, &chain2), ChainOutcome::TooManyRedirects);
}
