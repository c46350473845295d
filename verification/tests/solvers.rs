//! Mitigation plans.

use cloudscraper_rs::solvers::{
    ChallengeSolver, FailureRecorder, FingerprintManager, MitigationPlan, SolverVariant,
    TlsProfileManager,
};
use std::time::Duration;

#[test]
fn retry_after_carries_wait_and_reason() {
    let plan = MitigationPlan::retry_after(Duration::from_secs(2), "wait");
    assert!(plan.should_retry);
    assert_eq!(plan.wait, Some(Duration::from_secs(2)));
    assert_eq!(plan.reason, "wait");
    assert!(plan.new_proxy.is_none());
}

#[test]
fn retry_immediately_has_no_wait() {
    let plan = MitigationPlan::retry_immediately("go");
    assert!(plan.should_retry);
    assert!(plan.wait.is_none());
    assert_eq!(plan.reason, "go");
}

#[test]
fn no_retry_disables_retry() {
    let plan = MitigationPlan::no_retry("stop");
    assert!(!plan.should_retry);
    assert!(plan.wait.is_none());
}

#[test]
fn builder_helpers_attach_proxy_and_metadata() {
    let plan = MitigationPlan::retry_immediately("r")
        .with_proxy("http://p")
        .insert_metadata("k", "v");
    assert_eq!(plan.new_proxy.as_deref(), Some("http://p"));
    assert_eq!(plan.metadata.get("k").unwrap(), "v");
}

#[test]
fn builders_leave_the_rest_alone() {
    let plan = MitigationPlan::retry_after(Duration::from_millis(5), "slow down")
        .insert_metadata("k", "v")
        .insert_metadata("k", "w")
        .insert_metadata("l", "x")
        .with_proxy("http://p");
    assert!(plan.should_retry);
    assert_eq!(plan.wait, Some(Duration::from_millis(5)));
    assert_eq!(plan.reason, "slow down");
    assert!(plan.headers.is_empty());
    assert_eq!(plan.metadata.len(), 2);
    assert_eq!(plan.metadata.get("k").unwrap(), "w");
    assert_eq!(plan.metadata.get("l").unwrap(), "x");
}

#[test]
fn plans_are_equal_whatever_the_order_of_their_metadata() {
    let one = MitigationPlan::no_retry("r").insert_metadata("a", "1").insert_metadata("b", "2");
    let two = MitigationPlan::no_retry("r").insert_metadata("b", "2").insert_metadata("a", "1");
    assert!(one == two);
    assert!(one == one.clone());
    assert!(one != MitigationPlan::no_retry("r").insert_metadata("a", "1"));
    assert!(one != two.with_proxy("http://p"));
}

struct Named;

impl ChallengeSolver for Named {
    fn name(&self) -> &'static str {
        "named"
    }
}

struct Journal {
    lines: Vec<String>,
}

impl FingerprintManager for Journal {
    fn invalidate(&mut self, domain: &str) {
        self.lines.push(format!("invalidate {domain}"));
    }
}

impl TlsProfileManager for Journal {
    fn rotate_profile(&mut self, domain: &str) {
        self.lines.push(format!("rotate {domain}"));
    }
}

impl FailureRecorder for Journal {
    fn record_failure(&self, domain: &str, reason: &str) {
        assert_eq!((domain, reason), ("example.com", "blocked"));
    }
}

#[test]
fn interfaces_can_be_implemented() {
    assert_eq!(Named.name(), "named");
    let mut journal = Journal { lines: vec![] };
    journal.invalidate("example.com");
    journal.rotate_profile("example.com");
    journal.record_failure("example.com", "blocked");
    assert_eq!(journal.lines, vec!["invalidate example.com", "rotate example.com"]);
    assert_ne!(SolverVariant::JavascriptV1, SolverVariant::JavascriptV2);
}
