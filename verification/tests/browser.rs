//! The decisions of the headless-browser fallback.

use cloudscraper_rs::browser::{
    conclude, landing_url, poll, settle, still_challenged, BrowserSolveError, BrowserSolveOutcome,
    BrowserSolveRequest, Drive, DriveEvent, DriveStage, FinalState, HeadlessChromeSolver, PollStep,
    SolvedCookie, DEFAULT_BROWSER_TIMEOUT, POLL_INTERVAL_MS,
};
use cloudscraper_rs::web_url::WebUrl;
use std::time::Duration;

fn cookie(name: &str) -> SolvedCookie {
    SolvedCookie {
        name: name.to_string(),
        value: "abc123".to_string(),
        domain: "example.com".to_string(),
        path: "/".to_string(),
        secure: false,
    }
}

fn state(cleared: bool, names: &[&str]) -> FinalState {
    FinalState {
        cleared,
        cookies: names.iter().map(|name| cookie(name)).collect(),
        html: "<p>hello</p>".to_string(),
        user_agent: Some("UA/1".to_string()),
    }
}

#[test]
fn still_challenged_detects_interstitial() {
    assert!(still_challenged("<title>Just a moment...</title>"));
    assert!(still_challenged("loading /cdn-cgi/challenge-platform/ ..."));
    assert!(!still_challenged("<html><body>real content</body></html>"));
}

#[test]
fn solved_cookie_renders_set_cookie_string() {
    let cookie = SolvedCookie {
        name: "cf_clearance".into(),
        value: "abc123".into(),
        domain: ".example.com".into(),
        path: "/".into(),
        secure: true,
    };
    assert_eq!(
        cookie.to_set_cookie(),
        "cf_clearance=abc123; Domain=example.com; Path=/; Secure"
    );
    assert_eq!(
        cookie.reference_url().unwrap().as_str(),
        "https://example.com/"
    );
}

#[test]
fn every_marker_shows_an_interstitial_in_any_case() {
    for marker in [
        "JUST A MOMENT", "Challenge-Platform", "_CF_CHL_OPT", "cf_chl_opt", "CF-turnstile",
        "challenge-RUNNING",
    ] {
        assert!(still_challenged(marker));
        assert!(still_challenged(&format!("before {marker} after")));
    }
    assert!(!still_challenged(""));
    assert!(!still_challenged("just a momen"));
    assert!(!still_challenged("just  a moment"));
}

#[test]
fn cookies_without_secure_or_dots() {
    let mut plain = cookie("a");
    assert_eq!(plain.to_set_cookie(), "a=abc123; Domain=example.com; Path=/");
    plain.domain = "...sub.example.com".to_string();
    assert_eq!(plain.to_set_cookie(), "a=abc123; Domain=sub.example.com; Path=/");
    assert_eq!(plain.reference_url().unwrap().as_str(), "https://sub.example.com/");
    plain.domain = "..".to_string();
    assert!(plain.reference_url().is_none());
    plain.domain = "EXAMPLE.com".to_string();
    assert_eq!(plain.reference_url().unwrap().as_str(), "https://example.com/");
}

#[test]
fn urls_are_normalised() {
    let url = WebUrl::parse("HTTPS://User@EXAMPLE.com:443/a/../b?q#f").unwrap();
    assert_eq!(url.as_str(), "https://User@example.com/b?q#f");
    assert_eq!(url.host_str(), Some("example.com"));
    let mail = WebUrl::parse("mailto:a@b.c").unwrap();
    assert_eq!(mail.as_str(), "mailto:a@b.c");
    assert_eq!(mail.host_str(), None);
    assert_eq!(WebUrl::parse("no url").unwrap_err(), "relative URL without a base");
}

#[test]
fn requests_are_built_up() {
    let url = WebUrl::parse("https://example.com/x").unwrap();
    let plain = BrowserSolveRequest::new(&url);
    assert_eq!(plain.url.as_str(), "https://example.com/x");
    assert_eq!(plain.user_agent, None);
    assert_eq!(plain.proxy, None);
    assert_eq!(plain.timeout, Duration::from_secs(30));
    assert_eq!(DEFAULT_BROWSER_TIMEOUT, 30_000);
    let full = plain
        .clone()
        .with_user_agent(Some("UA/1"))
        .with_proxy(Some("http://p:1"))
        .with_timeout(Duration::from_secs(5));
    assert_eq!(full.user_agent, Some("UA/1"));
    assert_eq!(full.proxy, Some("http://p:1"));
    assert_eq!(full.timeout, Duration::from_secs(5));
    assert_eq!(full.url.as_str(), "https://example.com/x");
}

#[test]
fn launch_plans_carry_the_request() {
    let url = WebUrl::parse("https://example.com").unwrap();
    let plain = HeadlessChromeSolver::new().launch_plan(&BrowserSolveRequest::new(&url));
    let fixed = [
        "--disable-blink-features=AutomationControlled",
        "--disable-gpu",
        "--no-sandbox",
        "--disable-dev-shm-usage",
    ];
    assert!(plain.headless);
    assert_eq!(plain.args, fixed);
    assert_eq!(plain.url, "https://example.com/");
    assert_eq!(plain.user_agent, None);

    let request = BrowserSolveRequest::new(&url)
        .with_user_agent(Some("UA/1"))
        .with_proxy(Some("http://p:1"));
    let full = HeadlessChromeSolver::default().with_headful().launch_plan(&request);
    assert!(!full.headless);
    assert_eq!(full.args[..4], fixed);
    assert_eq!(full.args[4..], ["--user-agent=UA/1", "--proxy-server=http://p:1"]);
    assert_eq!(full.user_agent.as_deref(), Some("UA/1"));
}

#[test]
fn polling_stops_when_clear_or_out_of_time() {
    assert_eq!(poll("content", false), PollStep::Cleared);
    assert_eq!(poll("content", true), PollStep::Cleared);
    assert_eq!(poll("Just a moment...", false), PollStep::Wait);
    assert_eq!(poll("Just a moment...", true), PollStep::Expired);
    assert_eq!(POLL_INTERVAL_MS, 500);
}

#[test]
fn outcomes_need_a_clear_page_or_a_clearance() {
    let reported = "https://example.com/done";
    let asked = "https://example.com/";
    let by_page = conclude(state(true, &["a"]), reported, asked).unwrap();
    assert_eq!(by_page.final_url.as_str(), reported);
    assert_eq!(by_page.html, "<p>hello</p>");
    assert_eq!(by_page.user_agent.as_deref(), Some("UA/1"));
    assert_eq!(by_page.cookies, vec![cookie("a")]);
    assert!(!by_page.has_clearance());

    let by_cookie = conclude(state(false, &["a", "cf_clearance"]), reported, asked).unwrap();
    assert!(by_cookie.has_clearance());

    assert!(matches!(
        conclude(state(false, &["a", "CF_CLEARANCE"]), reported, asked),
        Err(BrowserSolveError::Timeout)
    ));
}

#[test]
fn the_landing_url_falls_back_to_the_one_asked_for() {
    let url = landing_url("about:blank", "https://example.com/").unwrap();
    assert_eq!(url.as_str(), "about:blank");
    let url = landing_url("", "https://example.com").unwrap();
    assert_eq!(url.as_str(), "https://example.com/");
    assert_eq!(landing_url("", "").unwrap_err(), "relative URL without a base");
    assert!(matches!(
        settle(state(true, &[]), Err("bad".to_string())),
        Err(BrowserSolveError::Navigation(cause)) if cause == "bad"
    ));
    assert!(matches!(
        conclude(state(true, &[]), "", ""),
        Err(BrowserSolveError::Navigation(cause)) if cause == "relative URL without a base"
    ));
}

#[test]
fn browser_errors_are_described() {
    let cause = || "why".to_string();
    assert_eq!(BrowserSolveError::Launch(cause()).message(), "failed to launch browser: why");
    assert_eq!(BrowserSolveError::Navigation(cause()).message(), "browser navigation failed: why");
    assert_eq!(
        BrowserSolveError::Timeout.message(),
        "challenge did not clear within the timeout"
    );
    assert_eq!(BrowserSolveError::Interaction(cause()).message(), "browser interaction failed: why");
    assert_eq!(
        BrowserSolveError::Join(cause()).message(),
        "browser task panicked or was cancelled: why"
    );
}

fn start(user_agent: Option<&str>) -> Drive {
    let url = WebUrl::parse("https://example.com/").unwrap();
    let request = BrowserSolveRequest::new(&url).with_user_agent(user_agent);
    Drive::start(HeadlessChromeSolver::new().launch_plan(&request))
}

fn look(body: &str, expired: bool) -> DriveEvent {
    DriveEvent::Page { body: Some(body.to_string()), expired }
}

/// A run that has come to watching the page.
fn watching(user_agent: Option<&str>) -> Drive {
    let mut run = start(user_agent);
    for _ in 0..(if user_agent.is_some() { 6 } else { 5 }) {
        run = run.advance(DriveEvent::Done);
    }
    assert!(matches!(run.stage, DriveStage::Watch));
    run
}

fn finish(run: Drive, cookies: Option<Vec<SolvedCookie>>) -> Result<BrowserSolveOutcome, BrowserSolveError> {
    let run = run.advance(DriveEvent::Cookies(cookies));
    assert!(matches!(run.stage, DriveStage::TakePage { .. }));
    let run = run.advance(look("final page", false));
    assert!(matches!(run.stage, DriveStage::Locate { .. }));
    let run = run.advance(DriveEvent::Location("https://example.com/end".to_string()));
    match run.stage {
        DriveStage::Over { result } => result,
        other => panic!("not over: {other:?}"),
    }
}

#[test]
fn a_run_goes_through_its_stages() {
    let run = start(Some("UA/1"));
    assert!(matches!(run.stage, DriveStage::Configure));
    let run = run.advance(DriveEvent::Done);
    assert!(matches!(run.stage, DriveStage::Launch));
    let run = run.advance(DriveEvent::Done);
    assert!(matches!(run.stage, DriveStage::OpenTab));
    let run = run.advance(DriveEvent::Done);
    assert!(matches!(run.stage, DriveStage::SetUserAgent));
    let run = run.advance(DriveEvent::Failed("unsupported".to_string()));
    assert!(matches!(run.stage, DriveStage::Navigate));
    let run = run.advance(DriveEvent::Done);
    assert!(matches!(run.stage, DriveStage::AwaitNavigation));
    let run = run.advance(DriveEvent::Done);
    assert!(matches!(run.stage, DriveStage::Watch));
    let run = run.advance(look("just a moment", false));
    assert!(matches!(run.stage, DriveStage::Pause));
    let run = run.advance(DriveEvent::Done);
    assert!(matches!(run.stage, DriveStage::Watch));
    let run = run.advance(look("content", false));
    assert!(matches!(run.stage, DriveStage::TakeCookies { cleared: true }));
    let outcome = finish(run, None).unwrap();
    assert_eq!(outcome.html, "final page");
    assert_eq!(outcome.final_url.as_str(), "https://example.com/end");
    assert_eq!(outcome.user_agent.as_deref(), Some("UA/1"));
    assert!(outcome.cookies.is_empty());
}

#[test]
fn a_run_without_user_agent_sets_none() {
    let run = start(None).advance(DriveEvent::Done).advance(DriveEvent::Done);
    let run = run.advance(DriveEvent::Done);
    assert!(matches!(run.stage, DriveStage::Navigate));
    let run = watching(None).advance(DriveEvent::Page { body: None, expired: false });
    assert!(matches!(run.stage, DriveStage::TakeCookies { cleared: true }));
    assert_eq!(finish(run, Some(vec![])).unwrap().user_agent, None);
}

#[test]
fn a_run_out_of_time_needs_a_clearance() {
    let run = watching(None).advance(look("challenge-platform", true));
    assert!(matches!(run.stage, DriveStage::TakeCookies { cleared: false }));
    assert!(matches!(finish(run, None), Err(BrowserSolveError::Timeout)));
    let run = watching(None).advance(look("challenge-platform", true));
    assert!(finish(run, Some(vec![cookie("cf_clearance")])).unwrap().has_clearance());
}

#[test]
fn failed_steps_end_a_run() {
    for done in 0..5 {
        let mut run = start(None);
        for _ in 0..done {
            run = run.advance(DriveEvent::Done);
        }
        let run = run.advance(DriveEvent::Failed("why".to_string()));
        match run.stage {
            DriveStage::Over { result: Err(BrowserSolveError::Launch(cause)) } => {
                assert!(done < 3 && cause == "why");
            }
            DriveStage::Over { result: Err(BrowserSolveError::Navigation(cause)) } => {
                assert!(done >= 3 && cause == "why");
            }
            other => panic!("unexpected stage {other:?}"),
        }
    }
}

#[test]
fn events_out_of_turn_change_nothing() {
    let run = watching(None).advance(DriveEvent::Done);
    assert!(matches!(run.stage, DriveStage::Watch));
    let run = start(None).advance(look("content", false));
    assert!(matches!(run.stage, DriveStage::Configure));
    let over = start(None).advance(DriveEvent::Failed("why".to_string()));
    let over = over.advance(DriveEvent::Done);
    assert!(matches!(over.stage, DriveStage::Over { result: Err(BrowserSolveError::Launch(_)) }));
}
