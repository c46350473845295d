//! User-agent profiles.

use cloudscraper_rs::random::random_choice;
use cloudscraper_rs::text_map::TextMap;
use cloudscraper_rs::user_agents::{
    candidate_paths, default_cipher_suites, default_headers, get_user_agent_profile,
    header_profile_to_map, permitted_device_kinds, strip_brotli, CandidatePath, DeviceKind,
    HeaderProfile, LoadEvent, LoadStage, Loading, UserAgentData, UserAgentError, UserAgentManager,
    UserAgentOptions,
};

fn texts(list: &[&str]) -> Vec<String> {
    list.iter().map(|s| s.to_string()).collect()
}

fn headers(encoding: &str) -> HeaderProfile {
    HeaderProfile {
        user_agent: None,
        accept: "text/html".to_string(),
        accept_language: "en-US,en;q=0.9".to_string(),
        accept_encoding: encoding.to_string(),
    }
}

fn platforms(list: &[(&str, &str, &[&str])]) -> TextMap<TextMap<Vec<String>>> {
    let mut map: TextMap<TextMap<Vec<String>>> = TextMap::new();
    for (platform, browser, agents) in list {
        let mut browsers = map.remove(platform).unwrap_or_else(TextMap::new);
        browsers.insert(browser.to_string(), texts(agents));
        map.insert(platform.to_string(), browsers);
    }
    map
}

fn dataset() -> UserAgentData {
    let mut by_browser = TextMap::new();
    by_browser.insert("chrome".to_string(), headers("gzip, deflate, br, zstd"));
    by_browser.insert("firefox".to_string(), headers("gzip, deflate, br"));
    let mut suites = TextMap::new();
    suites.insert("chrome".to_string(), texts(&["TLS_AES_128_GCM_SHA256", "TLS_AES_256_GCM_SHA384"]));
    UserAgentData {
        headers: by_browser,
        cipher_suites: suites,
        desktop: Some(platforms(&[
            ("linux", "chrome", &["Linux Chrome/1", "Linux Chrome/2"]),
            ("linux", "firefox", &["Linux Firefox/1"]),
            ("windows", "chrome", &["Windows Chrome/1"]),
            ("darwin", "chrome", &[]),
        ])),
        mobile: Some(platforms(&[
            ("android", "chrome", &["Android Chrome/1"]),
            ("linux", "chrome", &["Mobile Linux Chrome/3"]),
        ])),
    }
}

fn manager() -> Result<UserAgentManager, UserAgentError> {
    Ok(UserAgentManager { data: dataset() })
}

fn options(platform: &str, browser: &str) -> UserAgentOptions {
    UserAgentOptions {
        platform: Some(platform.to_string()),
        browser: Some(browser.to_string()),
        ..Default::default()
    }
}

#[test]
fn manager_loads_without_on_disk_file() {
    // Without any candidate the embedded dataset is what gets parsed.
    let loading = Loading::start(candidate_paths(None, false));
    assert!(matches!(loading.stage, LoadStage::ParseEmbedded));
    let manager = match loading.advance(LoadEvent::Parsed(dataset())).stage {
        LoadStage::Over(manager) => manager,
        other => panic!("not over: {other:?}"),
    };
    let manager = manager
        .as_ref()
        .expect("user-agent manager should load from the embedded dataset");
    let profile = manager.select_profile(UserAgentOptions::default()).unwrap();
    assert!(profile.headers.contains_key("User-Agent"));
}

#[test]
fn both_devices_disabled_is_invalid() {
    let opts = UserAgentOptions {
        desktop: false,
        mobile: false,
        ..Default::default()
    };
    assert!(matches!(
        get_user_agent_profile(&manager(), opts),
        Err(UserAgentError::InvalidOptions(_))
    ));
}

#[test]
fn invalid_platform_is_rejected() {
    let opts = UserAgentOptions {
        platform: Some("mars".into()),
        ..Default::default()
    };
    assert!(matches!(
        get_user_agent_profile(&manager(), opts),
        Err(UserAgentError::InvalidOptions(_))
    ));
}

#[test]
fn custom_user_agent_is_returned_verbatim() {
    let opts = UserAgentOptions {
        custom: Some("CustomUA/9.9".into()),
        ..Default::default()
    };
    let profile = get_user_agent_profile(&manager(), opts).unwrap();
    assert_eq!(profile.headers.get("User-Agent").unwrap(), "CustomUA/9.9");
    assert!(!profile.cipher_suites.is_empty());
}

#[test]
fn default_profile_has_all_core_headers() {
    let profile = get_user_agent_profile(&manager(), UserAgentOptions::default()).unwrap();
    for header in ["User-Agent", "Accept", "Accept-Language", "Accept-Encoding"] {
        assert!(profile.headers.contains_key(header), "missing {header}");
    }
}

#[test]
fn brotli_is_stripped_by_default() {
    let profile = get_user_agent_profile(&manager(), UserAgentOptions::default()).unwrap();
    let encoding = profile
        .headers
        .get("Accept-Encoding")
        .cloned()
        .unwrap_or_default();
    assert!(
        !encoding
            .split(',')
            .any(|e| e.trim().eq_ignore_ascii_case("br")),
        "brotli should be stripped: {encoding}"
    );
}

#[test]
fn strip_brotli_removes_only_br_token() {
    let mut map = TextMap::new();
    map.insert(
        "Accept-Encoding".to_string(),
        "gzip, br, deflate".to_string(),
    );
    strip_brotli(&mut map);
    assert_eq!(map.get("Accept-Encoding").unwrap(), "gzip, deflate");
}

#[test]
fn default_cipher_suites_are_present() {
    assert!(!default_cipher_suites().is_empty());
}

#[test]
fn stripping_normalises_and_is_done_once() {
    let strip = |value: &str| {
        let mut map = TextMap::new();
        map.insert("Accept-Encoding".to_string(), value.to_string());
        map.insert("Accept".to_string(), "br".to_string());
        strip_brotli(&mut map);
        assert_eq!(map.get("Accept").unwrap(), "br");
        map.get("Accept-Encoding").unwrap().clone()
    };
    for (value, stripped) in [
        ("br", ""),
        ("", ""),
        ("gzip", "gzip"),
        (" BR ,gzip,,\tBr\u{a0},zstd ", "gzip, , zstd"),
        ("br;q=1, bread", "br;q=1, bread"),
    ] {
        assert_eq!(strip(value), stripped);
        assert_eq!(strip(&strip(value)), stripped);
    }
    let mut without = TextMap::new();
    without.insert("Accept".to_string(), "br".to_string());
    strip_brotli(&mut without);
    assert_eq!(without.len(), 1);
}

#[test]
fn profiles_follow_the_options() {
    let manager = manager();
    let profile = get_user_agent_profile(&manager, options("linux", "firefox")).unwrap();
    assert_eq!(profile.headers.get("User-Agent").unwrap(), "Linux Firefox/1");
    assert_eq!(profile.headers.get("Accept").unwrap(), "text/html");
    assert_eq!(profile.headers.get("Accept-Language").unwrap(), "en-US,en;q=0.9");
    assert_eq!(profile.headers.get("Accept-Encoding").unwrap(), "gzip, deflate");
    assert!(profile.cipher_suites.is_empty());

    let opts = UserAgentOptions { allow_brotli: true, ..options("windows", "chrome") };
    let profile = get_user_agent_profile(&manager, opts).unwrap();
    assert_eq!(profile.headers.get("User-Agent").unwrap(), "Windows Chrome/1");
    assert_eq!(profile.headers.get("Accept-Encoding").unwrap(), "gzip, deflate, br, zstd");
    assert_eq!(profile.cipher_suites, texts(&["TLS_AES_128_GCM_SHA256", "TLS_AES_256_GCM_SHA384"]));
}

#[test]
fn device_kinds_are_joined() {
    let manager = manager();
    let mut drawn = Vec::new();
    for _ in 0..300 {
        let profile = get_user_agent_profile(&manager, options("linux", "chrome")).unwrap();
        let agent = profile.headers.get("User-Agent").unwrap().clone();
        if !drawn.contains(&agent) {
            drawn.push(agent);
        }
    }
    drawn.sort();
    assert_eq!(drawn, texts(&["Linux Chrome/1", "Linux Chrome/2", "Mobile Linux Chrome/3"]));

    let opts = UserAgentOptions { desktop: false, ..options("linux", "chrome") };
    let profile = get_user_agent_profile(&manager, opts).unwrap();
    assert_eq!(profile.headers.get("User-Agent").unwrap(), "Mobile Linux Chrome/3");
}

#[test]
fn refusals_say_why() {
    let manager = manager();
    let refusal = |opts: UserAgentOptions| get_user_agent_profile(&manager, opts).unwrap_err();
    let none = UserAgentOptions { desktop: false, mobile: false, ..options("mars", "chrome") };
    assert_eq!(
        refusal(none).message(),
        "invalid user-agent options: Desktop and mobile cannot both be disabled"
    );
    assert_eq!(
        refusal(options("mars", "chrome")).message(),
        "invalid user-agent options: Invalid platform 'mars'; valid: linux, windows, darwin, android, ios"
    );
    assert_eq!(
        refusal(options("windows", "firefox")).message(),
        "invalid user-agent options: Browser 'firefox' not available for platform 'windows'"
    );
    // A platform that is valid but has no user agent.
    assert!(matches!(refusal(options("darwin", "chrome")), UserAgentError::ProfileNotFound));
    assert!(matches!(refusal(options("ios", "chrome")), UserAgentError::ProfileNotFound));
}

#[test]
fn browsers_without_headers_have_no_profile() {
    let mut data = dataset();
    data.headers.remove("firefox");
    let manager = Ok(UserAgentManager { data });
    assert!(matches!(
        get_user_agent_profile(&manager, options("linux", "firefox")),
        Err(UserAgentError::ProfileNotFound)
    ));
    let empty = Ok(UserAgentManager {
        data: UserAgentData {
            headers: TextMap::new(),
            cipher_suites: TextMap::new(),
            desktop: None,
            mobile: None,
        },
    });
    assert!(matches!(
        get_user_agent_profile(&empty, UserAgentOptions::default()),
        Err(UserAgentError::ProfileNotFound)
    ));
}

#[test]
fn custom_agents_of_known_browsers_take_their_headers() {
    let manager = manager();
    let custom = |agent: &str| {
        let opts = UserAgentOptions { custom: Some(agent.to_string()), ..Default::default() };
        get_user_agent_profile(&manager, opts).unwrap()
    };
    let known = custom("Android");
    assert_eq!(known.headers.get("User-Agent").unwrap(), "Android");
    assert_eq!(known.headers.get("Accept-Encoding").unwrap(), "gzip, deflate, br, zstd");
    assert_eq!(known.cipher_suites.len(), 2);

    let unlisted = custom("Firefox/1");
    assert_eq!(unlisted.headers.get("Accept-Encoding").unwrap(), "gzip, deflate, br");
    assert_eq!(unlisted.cipher_suites, default_cipher_suites());

    let unknown = custom("Opera");
    assert_eq!(unknown.headers.get("User-Agent").unwrap(), "Opera");
    assert_eq!(unknown.headers.get("Accept-Encoding").unwrap(), "gzip, deflate");
    assert_eq!(unknown.headers.get("Accept-Language").unwrap(), "en-US,en;q=0.9");
    assert_eq!(
        unknown.headers.get("Accept").unwrap(),
        "text/html,application/xhtml+xml,application/xml;q=0.9,image/webp,image/apng,*/*;q=0.8"
    );
    assert_eq!(unknown.cipher_suites, default_cipher_suites());
}

#[test]
fn fallbacks_have_exact_values() {
    assert_eq!(
        default_cipher_suites(),
        texts(&[
            "TLS_AES_128_GCM_SHA256",
            "TLS_AES_256_GCM_SHA384",
            "ECDHE-ECDSA-AES128-GCM-SHA256",
            "ECDHE-RSA-AES128-GCM-SHA256",
            "ECDHE-ECDSA-AES256-GCM-SHA384",
            "ECDHE-RSA-AES256-GCM-SHA384",
        ])
    );
    assert_eq!(default_headers("UA/1").len(), 4);
    let mut profile = headers("gzip");
    assert_eq!(header_profile_to_map(&profile).len(), 3);
    profile.user_agent = Some("UA/1".to_string());
    let map = header_profile_to_map(&profile);
    assert_eq!(map.len(), 4);
    assert_eq!(map.get("User-Agent").unwrap(), "UA/1");
    assert_eq!(map.get("Accept-Encoding").unwrap(), "gzip");
}

#[test]
fn device_kinds_follow_the_flags() {
    let kinds = |desktop: bool, mobile: bool| {
        permitted_device_kinds(&UserAgentOptions { desktop, mobile, ..Default::default() })
    };
    assert_eq!(kinds(true, true), vec![DeviceKind::Desktop, DeviceKind::Mobile]);
    assert_eq!(kinds(true, false), vec![DeviceKind::Desktop]);
    assert_eq!(kinds(false, true), vec![DeviceKind::Mobile]);
    assert!(kinds(false, false).is_empty());
}

#[test]
fn platforms_and_browsers_are_listed() {
    let manager = manager().unwrap();
    let both = vec![DeviceKind::Desktop, DeviceKind::Mobile];
    let mobile = vec![DeviceKind::Mobile];
    assert!(manager.platform_available(&both, "windows"));
    assert!(!manager.platform_available(&mobile, "windows"));
    assert!(!manager.platform_available(&both, "darwin"));
    assert_eq!(manager.platform_candidates(&both), texts(&["linux", "windows", "android"]));
    let collected = manager.collect_profiles(&both, "linux");
    assert_eq!(collected.len(), 2);
    assert_eq!(
        collected.get("chrome").unwrap(),
        &texts(&["Linux Chrome/1", "Linux Chrome/2", "Mobile Linux Chrome/3"])
    );
    assert!(manager.collect_profiles(&both, "darwin").is_empty());
}

#[test]
fn candidates_are_tried_in_order() {
    let custom = Some("/tmp/browsers.json".to_string());
    let paths = candidate_paths(custom, true);
    assert!(matches!(&paths[0], CandidatePath::Custom(path) if path == "/tmp/browsers.json"));
    assert!(matches!(paths[1], CandidatePath::WorkingDirectory));
    assert_eq!(paths.len(), 2);
    assert_eq!(candidate_paths(Some(String::new()), true).len(), 1);
    assert!(candidate_paths(None, false).is_empty());

    let loading = Loading::start(paths);
    assert!(matches!(loading.stage, LoadStage::Read(0)));
    let loading = loading.advance(LoadEvent::Missing);
    assert!(matches!(loading.stage, LoadStage::Read(1)));
    let loading = loading.advance(LoadEvent::Parsed(dataset()));
    assert!(matches!(loading.stage, LoadStage::Read(1)));
    let loading = loading.advance(LoadEvent::Missing);
    assert!(matches!(loading.stage, LoadStage::ParseEmbedded));
}

#[test]
fn a_dataset_on_disk_comes_first() {
    let at_disk = || {
        Loading::start(candidate_paths(None, true)).advance(LoadEvent::Contents {
            path: "\"browsers.json\"".to_string(),
            contents: "{}".to_string(),
        })
    };
    assert!(matches!(&at_disk().stage, LoadStage::Parse { contents, .. } if contents == "{}"));
    let loaded = at_disk().advance(LoadEvent::Parsed(dataset()));
    assert!(matches!(loaded.stage, LoadStage::Over(Ok(_))));

    let failure = |loading: Loading, event: LoadEvent| match loading.advance(event).stage {
        LoadStage::Over(Err(error)) => error.message(),
        other => panic!("no failure: {other:?}"),
    };
    assert_eq!(
        failure(at_disk(), LoadEvent::Unparsable("expected value".to_string())),
        "user-agent JSON invalid at \"browsers.json\": expected value"
    );
    assert_eq!(
        failure(
            Loading::start(candidate_paths(None, true)),
            LoadEvent::Failed { path: "\"x\"".to_string(), source: "denied".to_string() },
        ),
        "I/O error reading \"x\": denied"
    );
    assert_eq!(
        failure(
            Loading::start(candidate_paths(None, false)),
            LoadEvent::Unparsable("eof".to_string()),
        ),
        "embedded user-agent dataset is invalid: eof"
    );
}

#[test]
fn profile_errors_are_described() {
    assert_eq!(
        UserAgentError::FileMissing { path: "\"x\"".to_string() }.message(),
        "user-agent data file missing: \"x\""
    );
    assert_eq!(UserAgentError::NoDataSources.message(), "no user-agent data sources found");
    assert_eq!(UserAgentError::ProfileNotFound.message(), "no matching user-agent profile found");
    let broken = Err(UserAgentError::InvalidEmbedded("eof".to_string()));
    let error = get_user_agent_profile(&broken, UserAgentOptions::default()).unwrap_err();
    assert!(matches!(&error, UserAgentError::InitializationFailure(_)));
    assert_eq!(
        error.message(),
        "user-agent manager initialization failed: embedded user-agent dataset is invalid: eof"
    );
}

#[test]
fn choices_come_from_the_list() {
    let list = texts(&["a", "b", "c"]);
    let mut seen = Vec::new();
    for _ in 0..300 {
        let choice = random_choice(&list);
        if !seen.contains(&choice) {
            seen.push(choice);
        }
    }
    seen.sort();
    assert_eq!(seen, list);
    assert_eq!(random_choice(&texts(&["only"])), "only");
}

#[test]
fn custom_agents_get_the_same_profile_every_time() {
    // Both browsers have user agents that hold the text; the one kept first wins.
    let manager = manager();
    let profile = |opts: UserAgentOptions| {
        let opts = UserAgentOptions { custom: Some("Linux".to_string()), ..opts };
        get_user_agent_profile(&manager, opts).unwrap()
    };
    let first = profile(UserAgentOptions::default());
    assert_eq!(first.headers.get("User-Agent").unwrap(), "Linux");
    assert_eq!(first.headers.get("Accept-Encoding").unwrap(), "gzip, deflate, br, zstd");
    for opts in [
        UserAgentOptions::default(),
        options("mars", "netscape"),
        UserAgentOptions { allow_brotli: true, ..options("linux", "firefox") },
        UserAgentOptions { desktop: false, ..Default::default() },
    ] {
        let again = profile(opts);
        assert!(again.headers == first.headers);
        assert_eq!(again.cipher_suites, first.cipher_suites);
    }
    let direct = manager.as_ref().unwrap().custom_profile("Linux".to_string()).unwrap();
    assert!(direct.headers == first.headers);
    let (browser, _) = manager.as_ref().unwrap().try_match_custom("Linux").unwrap();
    assert_eq!(browser, "chrome");
    assert!(manager.as_ref().unwrap().try_match_custom("Opera").is_none());
}
