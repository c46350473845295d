//! Challenge detection.

use cloudscraper_rs::detectors::{
    is_cloudflare_response, response_domain, ChallengeDetector, ChallengePattern,
    ChallengeResponse, ChallengeType, HeaderField, PatternStats, ResponseStrategy, MAX_HISTORY,
};
use cloudscraper_rs::ieee::{Float, Format};
use cloudscraper_rs::pattern_search::{is_indicated, is_valid_indicator};
use cloudscraper_rs::web_url::WebUrl;
use std::time::SystemTime;

fn as_f32(x: Float) -> f32 {
    f32::from_bits(x.to_bits(Format::Single) as u32)
}

fn hundredths(n: u64) -> Float {
    Float::from_ratio(Format::Single, n, 100)
}

fn field(name: &str, value: &str) -> HeaderField {
    HeaderField { name: name.to_string(), value: value.as_bytes().to_vec() }
}

fn response(url: &str, status: u16, headers: Vec<HeaderField>, body: &str) -> ChallengeResponse {
    ChallengeResponse {
        url: WebUrl::parse(url).unwrap(),
        status,
        headers,
        body: body.to_string(),
        request_method: "GET".to_string(),
    }
}

fn fixture(body: &str, status: u16) -> ChallengeResponse {
    response("https://example.com/", status, vec![field("server", "cloudflare")], body)
}

/// A managed challenge page (`orchestrate/chl_page/v1`, no form).
const CHL_PAGE_BODY: &str = r#"
        <!DOCTYPE html><html lang="en-US"><head><title>Just a moment...</title></head>
        <body><div class="main-wrapper" role="main"></div>
        <script>(function(){window._cf_chl_opt = {cvId: '3',cZone: 'www.fanfiction.net',cType: 'managed',cRay: '9d50f6009b10697f'};
        var a = document.createElement('script');
        a.src = '/cdn-cgi/challenge-platform/h/g/orchestrate/chl_page/v1?ray=9d50f6009b10697f';
        document.getElementsByTagName('head')[0].appendChild(a);}());</script></body></html>
    "#;

#[test]
fn detects_managed_chl_page_as_interactive() {
    let mut detector = ChallengeDetector::new();
    let response = fixture(CHL_PAGE_BODY, 403);

    let detection = detector
        .detect(&response)
        .expect("modern chl_page challenge should be detected");

    assert_eq!(detection.challenge_type, ChallengeType::ManagedInteractive);
    assert_eq!(detection.pattern_id, "cf_managed_chl_page");
    assert_eq!(
        detection.response_strategy,
        ResponseStrategy::BrowserSimulation
    );
}

#[test]
fn detects_via_cf_ray_header_without_server_header() {
    // No `Server: cloudflare`, but a `cf-ray` header: still Cloudflare.
    let response = response(
        "https://example.com/",
        403,
        vec![field("cf-ray", "9d50f6009b10697f")],
        CHL_PAGE_BODY,
    );

    let mut detector = ChallengeDetector::new();
    let detection = detector
        .detect(&response)
        .expect("should detect via cf-ray");
    assert_eq!(detection.challenge_type, ChallengeType::ManagedInteractive);
}

#[test]
fn detects_turnstile() {
    let html = r#"
			<html><head><title>Test</title></head>
			<body>
				<div class="cf-turnstile" data-sitekey="0123456789ABCDEFGHIJ0123456789ABCDEFGHIJ"></div>
				<script src="https://challenges.cloudflare.com/turnstile/v0/api.js"></script>
			</body>
			</html>
		"#;

    let mut detector = ChallengeDetector::new();
    let response = fixture(html, 403);
    let detection = detector.detect(&response).expect("should detect");

    assert_eq!(detection.challenge_type, ChallengeType::Turnstile);
    assert_eq!(
        detection.response_strategy,
        ResponseStrategy::CaptchaSolving
    );
    assert_eq!(as_f32(detection.confidence), (3f32 / 4f32) * 0.98f32);
    assert_eq!(detection.matched_indicators.len(), 3);
}

#[test]
fn a_detection_carries_what_was_found() {
    let mut detector = ChallengeDetector::default();
    let detection = detector.detect(&fixture(CHL_PAGE_BODY, 503)).unwrap();
    assert_eq!(detection.pattern_name, "Cloudflare Managed Challenge (chl_page/interactive)");
    assert_eq!(as_f32(detection.confidence), 0.93f32);
    assert!(!detection.is_adaptive);
    assert_eq!(detection.status_code, 503);
    assert_eq!(detection.url, "https://example.com/");
    assert_eq!(
        detection.matched_indicators,
        vec![
            r"window\._cf_chl_opt\s*=",
            r#"/cdn-cgi/challenge-platform/[^'"]*orchestrate/(?:chl_page|managed|captcha|jsch)/v1"#,
            r#"cType\s*:\s*['"](?:managed|interactive)['"]"#,
        ]
    );
}

#[test]
fn every_built_in_pattern_is_detected_by_its_indicators() {
    let pages = [
        (
            r#"<title> Just a moment... </title> var s,t,o,p,b,r,e,a,k,i,n,g,f,u,l,l,y,h,a,r,d,c,o,r,e
               setTimeout(function() { var x; f.submit() <form id="challenge-form" action="/x?__cf_chl_f_tk="#,
            "cf_iuam_v1",
            ChallengeType::JavaScriptV1,
            0.95f32,
        ),
        (
            r#"cpo.src = '/cdn-cgi/challenge-platform/h/orchestrate/jsch/v1' window._cf_chl_opt =
               <form id="challenge-form" action="/x?__cf_chl_rt_tk="#,
            "cf_iuam_v2",
            ChallengeType::JavaScriptV2,
            0.90,
        ),
        (
            r#"cpo.src = "/cdn-cgi/challenge-platform/h/orchestrate/captcha/v1" window._cf_chl_ctx =
               data-ray="0a9F" <div class="cf-browser-verification""#,
            "cf_managed_v3",
            ChallengeType::ManagedV3,
            0.92,
        ),
        (
            r#"<span class="cf-error-code">1015< You are being rate limited <title>Rate Limited</title>"#,
            "cf_rate_limit",
            ChallengeType::RateLimit,
            0.99,
        ),
        (
            r#"<span class="cf-error-code">1020< Access denied The owner of this website has banned your access"#,
            "cf_access_denied",
            ChallengeType::AccessDenied,
            0.99,
        ),
        (
            r#"<span class="cf-error-code">1010< Bot management has banned you temporarily"#,
            "cf_bot_management",
            ChallengeType::BotManagement,
            0.95,
        ),
    ];
    for (body, id, challenge_type, confidence) in pages {
        let detection = ChallengeDetector::new().detect(&fixture(body, 403)).unwrap();
        assert_eq!(detection.pattern_id, id);
        assert_eq!(detection.challenge_type, challenge_type);
        assert_eq!(as_f32(detection.confidence), confidence);
    }
}

#[test]
fn only_challenges_are_looked_into() {
    let detector = ChallengeDetector::new();
    for status in [403, 429, 503] {
        assert!(detector.is_cloudflare_challenge(&fixture("", status)));
    }
    for status in [200, 404, 500, 502] {
        assert!(!detector.is_cloudflare_challenge(&fixture("", status)));
    }
    let says = |name: &str, value: &str, status: u16| {
        let headers = vec![field("Server", "CloudFlare"), field(name, value)];
        detector.is_cloudflare_challenge(&response("https://example.com/", status, headers, ""))
    };
    assert!(says("CF-Mitigated", "Challenge", 200));
    assert!(!says("cf-mitigated", "challenged", 200));
    assert!(!says("cf-mitigated", "block", 200));
    assert!(!detector.is_cloudflare_challenge(&response(
        "https://example.com/",
        403,
        vec![field("server", "nginx")],
        "",
    )));
}

#[test]
fn cloudflare_is_known_by_server_or_ray() {
    let by = |headers: Vec<HeaderField>| {
        is_cloudflare_response(&response("https://example.com/", 200, headers, ""))
    };
    assert!(by(vec![field("server", "cloudflare")]));
    assert!(by(vec![field("SERVER", "CLOUDFLARE")]));
    assert!(by(vec![field("CF-RAY", "")]));
    assert!(!by(vec![]));
    assert!(!by(vec![field("server", "cloudflare-nginx")]));
    assert!(!by(vec![field("server", "nginx"), field("server", "cloudflare")]));
}

#[test]
fn domains_are_in_lower_case() {
    let domain = |url: &str| response_domain(&response(url, 200, vec![], ""));
    assert_eq!(domain("https://Sub.EXAMPLE.com:8080/x").as_deref(), Some("sub.example.com"));
    assert_eq!(domain("foo://HOST/x").as_deref(), Some("host"));
    assert_eq!(domain("data:text/plain,x"), None);
}

#[test]
fn indicators_ignore_case_and_cross_lines() {
    assert!(is_indicated("^b.c$", "A\nB\nC\nd"));
    assert!(!is_indicated("^b.d$", "A\nB\nC\nd"));
    assert!(is_valid_indicator("a+"));
    assert!(!is_valid_indicator("a("));
    assert!(!is_indicated("a(", "a("));
}

#[test]
fn scores_are_single_precision() {
    let pattern = ChallengePattern::new(
        "id",
        "name",
        ChallengeType::Unknown,
        ResponseStrategy::NoAction,
        hundredths(93),
        vec!["a", "b", "c"],
    );
    assert!(pattern.scored(0, None).is_none());
    assert!(pattern.scored(1, None).is_none());
    assert_eq!(as_f32(pattern.scored(2, None).unwrap()), (2f32 / 3f32) * 0.93f32);
    assert_eq!(as_f32(pattern.scored(3, None).unwrap()), 0.93f32);
    for attempts in 0..30u32 {
        for successes in 0..=attempts {
            let stats = PatternStats { attempts, successes };
            let rate = if attempts == 0 { 0.0 } else { successes as f32 / attempts as f32 };
            assert_eq!(as_f32(stats.success_rate()), rate);
            for found in 1..=3usize {
                let raw = (found as f32 / 3f32) * 0.93f32 + rate * 0.1;
                let capped = raw.min(1.0);
                let score = pattern.scored(found, Some(&stats));
                if capped < 0.5 {
                    assert!(score.is_none());
                } else {
                    assert_eq!(as_f32(score.unwrap()), capped);
                }
            }
        }
    }
}

#[test]
fn any_single_precision_base_confidence_is_taken() {
    for base in [0.0f32, 0.5, 0.7512345, 1.0, 3.5, f32::INFINITY, f32::NAN] {
        let pattern = ChallengePattern::new(
            "id",
            "name",
            ChallengeType::Unknown,
            ResponseStrategy::NoAction,
            Float::from_bits(Format::Single, base.to_bits() as u64),
            vec!["a", "b"],
        );
        for found in 1..=2usize {
            let capped = ((found as f32 / 2f32) * base).min(1.0);
            let score = pattern.scored(found, None);
            if capped < 0.5 {
                assert!(score.is_none());
            } else {
                assert_eq!(as_f32(score.unwrap()), capped);
            }
        }
    }
}

#[test]
fn a_pattern_finds_its_indicators_in_order() {
    let pattern = ChallengePattern::new(
        "id",
        "name",
        ChallengeType::Unknown,
        ResponseStrategy::NoAction,
        hundredths(80),
        vec!["x", "y", "z"],
    );
    assert_eq!(pattern.matched("Z then X"), vec!["x", "z"]);
    assert!(pattern.matched("nothing").is_empty());
}

#[test]
fn counts_stop_at_the_largest() {
    let mut stats = PatternStats { attempts: u32::MAX, successes: u32::MAX };
    stats.record(true);
    assert_eq!((stats.attempts, stats.successes), (u32::MAX, u32::MAX));
    let mut stats = PatternStats { attempts: 1, successes: 0 };
    stats.record(false);
    stats.record(true);
    assert_eq!((stats.attempts, stats.successes), (3, 1));
}

#[test]
fn learning_raises_and_lowers_scores() {
    let mut detector = ChallengeDetector::new();
    let page = fixture(CHL_PAGE_BODY, 403);
    let confidence = |d: &mut ChallengeDetector| as_f32(d.detect(&page).unwrap().confidence);
    assert_eq!(confidence(&mut detector), 0.93);
    detector.learn_from_outcome("cf_managed_chl_page", true);
    assert_eq!(confidence(&mut detector), 1.0);
    detector.learn_from_outcome("cf_managed_chl_page", false);
    assert_eq!(confidence(&mut detector), 0.93f32 + 0.5f32 * 0.1);
    detector.learn_from_outcome("cf_managed_chl_page", false);
    assert_eq!(confidence(&mut detector), 0.93f32 + (1f32 / 3f32) * 0.1);
    detector.learn_from_outcome("cf_turnstile", true);
    assert_eq!(confidence(&mut detector), 0.93f32 + (1f32 / 3f32) * 0.1);
}

#[test]
fn discovered_patterns_belong_to_their_domain() {
    let mut detector = ChallengeDetector::new();
    detector.add_adaptive_pattern(
        "Sub.Example.COM",
        "Custom",
        vec!["please wait", "robot"],
        ChallengeType::Unknown,
        ResponseStrategy::DelayRetry,
    );
    let page = |host: &str| {
        let url = format!("https://{host}/");
        response(&url, 403, vec![field("server", "cloudflare")], "Please WAIT, robot")
    };
    assert!(detector.detect(&page("other.example.com")).is_none());
    let detection = detector.detect(&page("sub.example.com")).unwrap();
    assert_eq!(detection.pattern_id, "adaptive_Sub.Example.COM_2");
    assert_eq!(detection.pattern_name, "Custom");
    assert!(detection.is_adaptive);
    assert_eq!(detection.challenge_type, ChallengeType::Unknown);
    assert_eq!(detection.response_strategy, ResponseStrategy::DelayRetry);
    assert_eq!(as_f32(detection.confidence), 0.8);
    assert_eq!(detection.matched_indicators, vec!["please wait", "robot"]);
}

#[test]
fn the_first_of_two_best_patterns_wins() {
    let mut detector = ChallengeDetector::new();
    for name in ["first", "second"] {
        detector.add_adaptive_pattern(
            "example.com",
            name,
            vec!["marker"],
            ChallengeType::Unknown,
            ResponseStrategy::NoAction,
        );
    }
    let detection = detector.detect(&fixture("marker", 403)).unwrap();
    assert_eq!(detection.pattern_name, "first");
}

#[test]
fn invalid_indicators_are_refused() {
    let mut detector = ChallengeDetector::new();
    let mut try_with = |indicators: Vec<&str>| {
        detector.try_add_adaptive_pattern(
            "example.com",
            "name",
            indicators,
            ChallengeType::Unknown,
            ResponseStrategy::NoAction,
        )
    };
    assert!(!try_with(vec!["marker", "broken("]));
    assert!(try_with(vec!["other"]));
    assert!(detector.detect(&fixture("marker", 403)).is_none());
    assert!(detector.detect(&fixture("other", 403)).is_some());
}

#[test]
fn detections_are_recorded() {
    let mut detector = ChallengeDetector::new();
    assert!(detector.detect(&fixture("nothing to see", 403)).is_none());
    assert!(detector.detection_history().is_empty());
    let before = SystemTime::now();
    let detection = detector.detect(&fixture(CHL_PAGE_BODY, 403)).unwrap();
    let after = SystemTime::now();
    let history = detector.detection_history();
    assert_eq!(history.len(), 1);
    assert_eq!(history[0].pattern_id, detection.pattern_id);
    assert_eq!(history[0].url, "https://example.com/");
    assert_eq!(as_f32(history[0].confidence), as_f32(detection.confidence));
    assert!(before <= history[0].timestamp && history[0].timestamp <= after);
}

#[test]
fn history_keeps_the_latest() {
    let mut detector = ChallengeDetector::new();
    let mut detection = detector.detect(&fixture(CHL_PAGE_BODY, 403)).unwrap();
    let now = SystemTime::now();
    for n in 0..1500usize {
        detection.url = format!("https://example.com/{n}");
        detector.record_detection(&detection, now);
    }
    let history = detector.detection_history();
    assert_eq!(MAX_HISTORY, 1000);
    assert_eq!(history.len(), 1000);
    assert_eq!(history[0].url, "https://example.com/500");
    assert_eq!(history[999].url, "https://example.com/1499");
}

#[test]
fn outcomes_are_counted() {
    let mut stats = PatternStats { attempts: 0, successes: 0 };
    for n in 0..100u32 {
        stats.record(n % 3 == 0);
    }
    assert_eq!((stats.attempts, stats.successes), (100, 34));
    assert_eq!(as_f32(stats.success_rate()), 34f32 / 100f32);
}
