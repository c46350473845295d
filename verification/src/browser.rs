//! Decisions of the headless-browser fallback.
//!
//! Interactive challenges need a real browser. Driving it is left to the
//! caller; here stand the arguments it is launched with, the check whether the
//! interstitial is still shown, the polling decision and the final outcome.

use crate::text;
use crate::web_url;
use crate::web_url::WebUrl;
use std::time::Duration;
use vstd::prelude::*;

verus! {

/// The default time budget for one challenge, in milliseconds.
pub const DEFAULT_BROWSER_TIMEOUT: u64 = 30_000;

/// Inputs of one attempt. The user agent and the proxy must be those of the
/// client that replays the request, to which the clearance is bound.
#[derive(Debug)]
pub struct BrowserSolveRequest<'a> {
    /// URL that returned the challenge.
    pub url: &'a WebUrl,
    /// User agent to emulate.
    pub user_agent: Option<&'a str>,
    /// Proxy to go through.
    pub proxy: Option<&'a str>,
    /// Longest time to wait for the challenge to clear.
    pub timeout: Duration,
}

impl<'a> Clone for BrowserSolveRequest<'a> {
    fn clone(&self) -> (r: BrowserSolveRequest<'a>)
        ensures
            r == *self,
    {
        BrowserSolveRequest {
            url: self.url,
            user_agent: self.user_agent,
            proxy: self.proxy,
            timeout: self.timeout,
        }
    }
}

impl<'a> BrowserSolveRequest<'a> {
    /// A request with the default timeout.
    pub fn new(url: &'a WebUrl) -> (r: BrowserSolveRequest<'a>)
        ensures
            *r.url == *url,
            r.user_agent is None,
            r.proxy is None,
            r.timeout == crate::timing::millis(DEFAULT_BROWSER_TIMEOUT),
    {
        BrowserSolveRequest {
            url,
            user_agent: None,
            proxy: None,
            timeout: Duration::from_millis(DEFAULT_BROWSER_TIMEOUT),
        }
    }

    /// The request with a user agent to emulate.
    pub fn with_user_agent(self, user_agent: Option<&'a str>) -> (r: BrowserSolveRequest<'a>)
        ensures
            r == (BrowserSolveRequest { user_agent, ..self }),
    {
        BrowserSolveRequest { user_agent, ..self }
    }

    /// The request with a proxy.
    pub fn with_proxy(self, proxy: Option<&'a str>) -> (r: BrowserSolveRequest<'a>)
        ensures
            r == (BrowserSolveRequest { proxy, ..self }),
    {
        BrowserSolveRequest { proxy, ..self }
    }

    /// The request with a timeout.
    pub fn with_timeout(self, timeout: Duration) -> (r: BrowserSolveRequest<'a>)
        ensures
            r == (BrowserSolveRequest { timeout, ..self }),
    {
        BrowserSolveRequest { timeout, ..self }
    }
}

/// A cookie taken from the browser.
#[derive(Debug, Clone, PartialEq, Eq)]
pub struct SolvedCookie {
    pub name: String,
    pub value: String,
    pub domain: String,
    pub path: String,
    pub secure: bool,
}

impl SolvedCookie {
    /// The domain without leading dots.
    pub open spec fn bare_domain(self) -> Seq<char> {
        text::strip_leading(self.domain@, '.')
    }

    /// The cookie in the form of a `Set-Cookie` header.
    pub open spec fn set_cookie(self) -> Seq<char> {
        self.name@ + "="@ + self.value@ + "; Domain="@ + self.bare_domain() + "; Path="@ + self.path@
            + (if self.secure { "; Secure"@ } else { Seq::empty() })
    }

    /// The text of the URL under which the cookie is stored.
    pub open spec fn reference(self) -> Seq<char> {
        "https://"@ + self.bare_domain() + "/"@
    }

    /// The cookie in the form of a `Set-Cookie` header.
    pub fn to_set_cookie(&self) -> (r: String)
        ensures
            r@ == self.set_cookie(),
    {
        let domain: String = text::without_leading(self.domain.as_str(), '.');
        let mut s: String = self.name.clone();
        s.append("=");
        s.append(self.value.as_str());
        s.append("; Domain=");
        s.append(domain.as_str());
        s.append("; Path=");
        s.append(self.path.as_str());
        if self.secure {
            s.append("; Secure");
        } else {
            assert(s@ + Seq::<char>::empty() =~= s@);
        }
        s
    }

    /// The URL under which the cookie is stored, if the domain makes one.
    pub fn reference_url(&self) -> (r: Option<WebUrl>)
        ensures
            match r {
                Some(url) => web_url::url_parts(self.reference()) == Ok::<
                    (Seq<char>, Option<Seq<char>>),
                    Seq<char>,
                >((url.text(), url.host())),
                None => web_url::url_parts(self.reference()) is Err,
            },
    {
        let domain: String = text::without_leading(self.domain.as_str(), '.');
        let mut s: String = "https://".to_owned();
        s.append(domain.as_str());
        s.append("/");
        match WebUrl::parse(s.as_str()) {
            Ok(url) => Some(url),
            Err(_) => None,
        }
    }
}

/// Whether a clearance cookie is among some cookies.
pub open spec fn cleared_by(cookies: Seq<SolvedCookie>) -> bool {
    exists|i: int| 0 <= i < cookies.len() && (#[trigger] cookies[i]).name@ == "cf_clearance"@
}

fn any_clearance(cookies: &Vec<SolvedCookie>) -> (r: bool)
    ensures
        r == cleared_by(cookies@),
{
    let mut i: usize = 0;
    while i < cookies.len()
        invariant
            i <= cookies@.len(),
            forall|j: int| 0 <= j < i ==> (#[trigger] cookies@[j]).name@ != "cf_clearance"@,
        decreases cookies@.len() - i,
    {
        if text::same(cookies[i].name.as_str(), "cf_clearance") {
            return true;
        }
        i += 1;
    }
    false
}

/// The result of an attempt.
#[derive(Debug, Clone)]
pub struct BrowserSolveOutcome {
    /// Cookies present at the end, with the clearance among them where one was
    /// obtained.
    pub cookies: Vec<SolvedCookie>,
    /// URL at the end.
    pub final_url: WebUrl,
    /// Rendered page at the end.
    pub html: String,
    /// User agent that the browser used, if known.
    pub user_agent: Option<String>,
}

impl BrowserSolveOutcome {
    /// Whether a clearance cookie was obtained.
    pub fn has_clearance(&self) -> (r: bool)
        ensures
            r == cleared_by(self.cookies@),
    {
        any_clearance(&self.cookies)
    }
}

/// Why an attempt failed.
#[derive(Debug)]
pub enum BrowserSolveError {
    Launch(String),
    Navigation(String),
    Timeout,
    Interaction(String),
    Join(String),
}

impl BrowserSolveError {
    /// The error in words.
    pub open spec fn described(self) -> Seq<char> {
        match self {
            BrowserSolveError::Launch(cause) => "failed to launch browser: "@ + cause@,
            BrowserSolveError::Navigation(cause) => "browser navigation failed: "@ + cause@,
            BrowserSolveError::Timeout => "challenge did not clear within the timeout"@,
            BrowserSolveError::Interaction(cause) => "browser interaction failed: "@ + cause@,
            BrowserSolveError::Join(cause) => "browser task panicked or was cancelled: "@ + cause@,
        }
    }

    /// The error in words.
    pub fn message(&self) -> (r: String)
        ensures
            r@ == self.described(),
    {
        match self {
            BrowserSolveError::Launch(cause) => {
                "failed to launch browser: ".to_owned().concat(cause.as_str())
            },
            BrowserSolveError::Navigation(cause) => {
                "browser navigation failed: ".to_owned().concat(cause.as_str())
            },
            BrowserSolveError::Timeout => "challenge did not clear within the timeout".to_owned(),
            BrowserSolveError::Interaction(cause) => {
                "browser interaction failed: ".to_owned().concat(cause.as_str())
            },
            BrowserSolveError::Join(cause) => {
                "browser task panicked or was cancelled: ".to_owned().concat(cause.as_str())
            },
        }
    }
}

/// Texts that show an interstitial.
pub open spec fn markers() -> Seq<Seq<char>> {
    seq![
        "just a moment"@,
        "challenge-platform"@,
        "_cf_chl_opt"@,
        "cf_chl_opt"@,
        "cf-turnstile"@,
        "challenge-running"@,
    ]
}

/// Whether a page still shows an interstitial.
pub open spec fn shows_interstitial(body: Seq<char>) -> bool {
    exists|i: int| 0 <= i < markers().len() && text::occurs(#[trigger] markers()[i], text::lower(body))
}

/// Whether a page still shows an interstitial.
pub fn still_challenged(body: &str) -> (r: bool)
    ensures
        r == shows_interstitial(body@),
{
    let lower: String = text::to_lower(body);
    let words: Vec<&str> = vec![
        "just a moment",
        "challenge-platform",
        "_cf_chl_opt",
        "cf_chl_opt",
        "cf-turnstile",
        "challenge-running",
    ];
    let mut i: usize = 0;
    assert(words@.map_values(|s: &str| s@) =~= markers());
    while i < words.len()
        invariant
            i <= words@.len(),
            lower@ == text::lower(body@),
            words@.map_values(|s: &str| s@) == markers(),
            forall|j: int| 0 <= j < i ==> !text::occurs(#[trigger] markers()[j], lower@),
        decreases words@.len() - i,
    {
        assert(words@.map_values(|s: &str| s@)[i as int] == words@[i as int]@);
        if text::contains(lower.as_str(), words[i]) {
            return true;
        }
        i += 1;
    }
    assert(markers().len() == words@.len());
    false
}

/// Clears challenges with a headless browser.
#[derive(Debug, Clone, Copy)]
pub struct HeadlessChromeSolver {
    headless: bool,
}

/// What the browser is launched with, and where it goes.
#[derive(Debug)]
pub struct LaunchPlan {
    pub headless: bool,
    pub args: Vec<String>,
    pub url: String,
    pub user_agent: Option<String>,
}

/// The command line of the browser: four fixed switches, then the user agent
/// and the proxy where they are given.
pub open spec fn launch_arguments(user_agent: Option<Seq<char>>, proxy: Option<Seq<char>>) -> Seq<
    Seq<char>,
> {
    let fixed = seq![
        "--disable-blink-features=AutomationControlled"@,
        "--disable-gpu"@,
        "--no-sandbox"@,
        "--disable-dev-shm-usage"@,
    ];
    let agent = match user_agent {
        Some(ua) => fixed.push("--user-agent="@ + ua),
        None => fixed,
    };
    match proxy {
        Some(endpoint) => agent.push("--proxy-server="@ + endpoint),
        None => agent,
    }
}

/// The view of an optional slice.
pub open spec fn viewed(s: Option<&str>) -> Option<Seq<char>> {
    match s {
        Some(text) => Some(text@),
        None => None,
    }
}

impl Default for HeadlessChromeSolver {
    fn default() -> (r: Self)
        ensures
            r.is_headless(),
    {
        HeadlessChromeSolver { headless: true }
    }
}

impl HeadlessChromeSolver {
    /// Whether the browser runs without a window.
    pub closed spec fn is_headless(self) -> bool {
        self.headless
    }

    /// A solver without a window.
    pub fn new() -> (r: HeadlessChromeSolver)
        ensures
            r.is_headless(),
    {
        HeadlessChromeSolver::default()
    }

    /// The solver with a visible window.
    pub fn with_headful(self) -> (r: HeadlessChromeSolver)
        ensures
            !r.is_headless(),
    {
        HeadlessChromeSolver { headless: false }
    }

    /// How to launch the browser for a request.
    pub fn launch_plan(&self, request: &BrowserSolveRequest<'_>) -> (r: LaunchPlan)
        ensures
            r.headless == self.is_headless(),
            text::views(r.args@) == launch_arguments(
                viewed(request.user_agent),
                viewed(request.proxy),
            ),
            request.proxy matches Some(endpoint) ==> text::views(r.args@).contains(
                "--proxy-server="@ + endpoint@,
            ),
            request.user_agent matches Some(ua) ==> text::views(r.args@).contains(
                "--user-agent="@ + ua@,
            ),
            r.args@.len() == 4 + (if request.user_agent is Some { 1int } else { 0 }) + (
            if request.proxy is Some { 1int } else { 0 }),
            r.url@ == request.url.text(),
            match r.user_agent {
                Some(ua) => viewed(request.user_agent) == Some(ua@),
                None => request.user_agent is None,
            },
    {
        let mut args: Vec<String> = vec![
            "--disable-blink-features=AutomationControlled".to_owned(),
            "--disable-gpu".to_owned(),
            "--no-sandbox".to_owned(),
            "--disable-dev-shm-usage".to_owned(),
        ];
        let ghost fixed = launch_arguments(None, None);
        assert(text::views(args@) =~= fixed);
        if let Some(ua) = request.user_agent {
            args.push("--user-agent=".to_owned().concat(ua));
            assert(text::views(args@) =~= fixed.push("--user-agent="@ + ua@));
        }
        let ghost before = text::views(args@);
        if let Some(endpoint) = request.proxy {
            args.push("--proxy-server=".to_owned().concat(endpoint));
            assert(text::views(args@) =~= before.push("--proxy-server="@ + endpoint@));
        }
        proof {
            crate::browser_laws::law_arguments_carry_the_request(
                viewed(request.user_agent),
                viewed(request.proxy),
            );
        }
        let user_agent: Option<String> = match request.user_agent {
            Some(ua) => Some(ua.to_owned()),
            None => None,
        };
        LaunchPlan {
            headless: self.headless,
            args,
            url: request.url.as_str().to_owned(),
            user_agent,
        }
    }
}

/// Milliseconds between two looks at the page.
pub const POLL_INTERVAL_MS: u64 = 500;

/// What a look at the page leads to.
#[derive(Debug, Clone, Copy, PartialEq, Eq, Structural)]
pub enum PollStep {
    /// The interstitial is gone.
    Cleared,
    /// The time is up.
    Expired,
    /// Look again after the poll interval.
    Wait,
}

/// Decides what a look at the page leads to.
pub fn poll(body: &str, expired: bool) -> (r: PollStep)
    ensures
        r == (if !shows_interstitial(body@) {
            PollStep::Cleared
        } else if expired {
            PollStep::Expired
        } else {
            PollStep::Wait
        }),
{
    if !still_challenged(body) {
        PollStep::Cleared
    } else if expired {
        PollStep::Expired
    } else {
        PollStep::Wait
    }
}

/// What the browser held when polling ended.
#[derive(Debug)]
pub struct FinalState {
    pub cleared: bool,
    pub cookies: Vec<SolvedCookie>,
    pub html: String,
    pub user_agent: Option<String>,
}

/// The outcome for a final state and the URL it was reached at: a navigation
/// error without a URL, a timeout where neither the interstitial went nor a
/// clearance cookie came.
pub fn settle(state: FinalState, final_url: Result<WebUrl, String>) -> (r: Result<
    BrowserSolveOutcome,
    BrowserSolveError,
>)
    ensures
        match final_url {
            Err(cause) => r == Err::<BrowserSolveOutcome, BrowserSolveError>(
                BrowserSolveError::Navigation(cause),
            ),
            Ok(url) => if state.cleared || cleared_by(state.cookies@) {
                r == Ok::<BrowserSolveOutcome, BrowserSolveError>(
                    BrowserSolveOutcome {
                        cookies: state.cookies,
                        final_url: url,
                        html: state.html,
                        user_agent: state.user_agent,
                    },
                )
            } else {
                r == Err::<BrowserSolveOutcome, BrowserSolveError>(BrowserSolveError::Timeout)
            },
        },
{
    let url: WebUrl = match final_url {
        Ok(url) => url,
        Err(cause) => {
            return Err(BrowserSolveError::Navigation(cause));
        },
    };
    if !state.cleared && !any_clearance(&state.cookies) {
        return Err(BrowserSolveError::Timeout);
    }
    Ok(
        BrowserSolveOutcome {
            cookies: state.cookies,
            final_url: url,
            html: state.html,
            user_agent: state.user_agent,
        },
    )
}

/// The URL that the browser reports, or the one asked for where that is none.
pub open spec fn landing(reported: Seq<char>, requested: Seq<char>) -> Result<
    (Seq<char>, Option<Seq<char>>),
    Seq<char>,
> {
    match web_url::url_parts(reported) {
        Ok(parts) => Ok(parts),
        Err(_) => web_url::url_parts(requested),
    }
}

/// The URL that the browser reports, or the one asked for where that is none.
pub fn landing_url(reported: &str, requested: &str) -> (r: Result<WebUrl, String>)
    ensures
        match r {
            Ok(url) => landing(reported@, requested@) == Ok::<
                (Seq<char>, Option<Seq<char>>),
                Seq<char>,
            >((url.text(), url.host())),
            Err(cause) => landing(reported@, requested@) == Err::<
                (Seq<char>, Option<Seq<char>>),
                Seq<char>,
            >(cause@),
        },
{
    match WebUrl::parse(reported) {
        Ok(url) => Ok(url),
        Err(_) => WebUrl::parse(requested),
    }
}

/// Whether `r` is the outcome for what the browser held when polling ended.
pub open spec fn concludes(
    state: FinalState,
    reported: Seq<char>,
    requested: Seq<char>,
    r: Result<BrowserSolveOutcome, BrowserSolveError>,
) -> bool {
    match landing(reported, requested) {
        Err(cause) => r matches Err(BrowserSolveError::Navigation(c)) && c@ == cause,
        Ok((text, host)) => if state.cleared || cleared_by(state.cookies@) {
            &&& r matches Ok(outcome)
            &&& outcome.cookies == state.cookies
            &&& outcome.final_url.text() == text
            &&& outcome.final_url.host() == host
            &&& outcome.html == state.html
            &&& outcome.user_agent == state.user_agent
        } else {
            r matches Err(BrowserSolveError::Timeout)
        },
    }
}

/// The outcome for what the browser held when polling ended.
pub fn conclude(state: FinalState, reported: &str, requested: &str) -> (r: Result<
    BrowserSolveOutcome,
    BrowserSolveError,
>)
    ensures
        concludes(state, reported@, requested@, r),
{
    settle(state, landing_url(reported, requested))
}

/// What is to be done next in a run of the browser.
#[derive(Debug)]
pub enum DriveStage {
    /// Make launch options of the plan.
    Configure,
    /// Launch the browser.
    Launch,
    /// Open a tab.
    OpenTab,
    /// Give the tab the user agent of the plan.
    SetUserAgent,
    /// Go to the URL of the plan.
    Navigate,
    /// Wait until the page is there.
    AwaitNavigation,
    /// Look at the page and at the clock.
    Watch,
    /// Let the poll interval go by.
    Pause,
    /// Take the cookies.
    TakeCookies { cleared: bool },
    /// Take the page.
    TakePage { cleared: bool, cookies: Vec<SolvedCookie> },
    /// Ask for the URL.
    Locate { state: FinalState },
    /// Nothing: the run is over.
    Over { result: Result<BrowserSolveOutcome, BrowserSolveError> },
}

/// What came of a stage.
#[derive(Debug)]
pub enum DriveEvent {
    Done,
    Failed(String),
    /// The page, if it could be read, and whether the time is up.
    Page { body: Option<String>, expired: bool },
    /// The cookies, if they could be had.
    Cookies(Option<Vec<SolvedCookie>>),
    /// The URL that the browser reports.
    Location(String),
}

/// A run of the browser.
#[derive(Debug)]
pub struct Drive {
    pub plan: LaunchPlan,
    pub stage: DriveStage,
}

/// A page, empty where it could not be read.
pub open spec fn page(body: Option<String>) -> Seq<char> {
    match body {
        Some(text) => text@,
        None => Seq::empty(),
    }
}

/// The stage of a run that failed.
pub open spec fn gave_up(error: BrowserSolveError) -> DriveStage {
    DriveStage::Over { result: Err(error) }
}

impl Drive {
    /// Whether `next` is the stage after an event. An event that the stage does
    /// not call for changes nothing.
    pub open spec fn follows(self, event: DriveEvent, next: DriveStage) -> bool {
        match (self.stage, event) {
            (DriveStage::Configure, DriveEvent::Done) => next == DriveStage::Launch,
            (DriveStage::Launch, DriveEvent::Done) => next == DriveStage::OpenTab,
            (DriveStage::OpenTab, DriveEvent::Done) => next == if self.plan.user_agent is Some {
                DriveStage::SetUserAgent
            } else {
                DriveStage::Navigate
            },
            (DriveStage::Configure, DriveEvent::Failed(cause)) => next == gave_up(
                BrowserSolveError::Launch(cause),
            ),
            (DriveStage::Launch, DriveEvent::Failed(cause)) => next == gave_up(
                BrowserSolveError::Launch(cause),
            ),
            (DriveStage::OpenTab, DriveEvent::Failed(cause)) => next == gave_up(
                BrowserSolveError::Launch(cause),
            ),
            (DriveStage::SetUserAgent, DriveEvent::Done) => next == DriveStage::Navigate,
            (DriveStage::SetUserAgent, DriveEvent::Failed(_)) => next == DriveStage::Navigate,
            (DriveStage::Navigate, DriveEvent::Done) => next == DriveStage::AwaitNavigation,
            (DriveStage::Navigate, DriveEvent::Failed(cause)) => next == gave_up(
                BrowserSolveError::Navigation(cause),
            ),
            (DriveStage::AwaitNavigation, DriveEvent::Done) => next == DriveStage::Watch,
            (DriveStage::AwaitNavigation, DriveEvent::Failed(cause)) => next == gave_up(
                BrowserSolveError::Navigation(cause),
            ),
            (DriveStage::Watch, DriveEvent::Page { body, expired }) => next == if
                !shows_interstitial(page(body)) {
                DriveStage::TakeCookies { cleared: true }
            } else if expired {
                DriveStage::TakeCookies { cleared: false }
            } else {
                DriveStage::Pause
            },
            (DriveStage::Pause, DriveEvent::Done) => next == DriveStage::Watch,
            (DriveStage::TakeCookies { cleared }, DriveEvent::Cookies(list)) => {
                &&& next matches DriveStage::TakePage { cleared: c, cookies }
                &&& c == cleared
                &&& cookies@ == match list {
                    Some(l) => l@,
                    None => Seq::empty(),
                }
            },
            (DriveStage::TakePage { cleared, cookies }, DriveEvent::Page { body, .. }) => {
                &&& next matches DriveStage::Locate { state }
                &&& state.cleared == cleared
                &&& state.cookies == cookies
                &&& state.html@ == page(body)
                &&& state.user_agent == self.plan.user_agent
            },
            (DriveStage::Locate { state }, DriveEvent::Location(reported)) => {
                &&& next matches DriveStage::Over { result }
                &&& concludes(state, reported@, self.plan.url@, result)
            },
            _ => next == self.stage,
        }
    }

    /// A run that starts.
    pub fn start(plan: LaunchPlan) -> (r: Drive)
        ensures
            r == (Drive { plan, stage: DriveStage::Configure }),
    {
        Drive { plan, stage: DriveStage::Configure }
    }

    /// The run after an event.
    pub fn advance(self, event: DriveEvent) -> (r: Drive)
        ensures
            r.plan == self.plan,
            self.follows(event, r.stage),
    {
        let plan: LaunchPlan = self.plan;
        let stage: DriveStage = match (self.stage, event) {
            (DriveStage::Configure, DriveEvent::Done) => DriveStage::Launch,
            (DriveStage::Launch, DriveEvent::Done) => DriveStage::OpenTab,
            (DriveStage::OpenTab, DriveEvent::Done) => if plan.user_agent.is_some() {
                DriveStage::SetUserAgent
            } else {
                DriveStage::Navigate
            },
            (DriveStage::Configure, DriveEvent::Failed(cause)) => DriveStage::Over {
                result: Err(BrowserSolveError::Launch(cause)),
            },
            (DriveStage::Launch, DriveEvent::Failed(cause)) => DriveStage::Over {
                result: Err(BrowserSolveError::Launch(cause)),
            },
            (DriveStage::OpenTab, DriveEvent::Failed(cause)) => DriveStage::Over {
                result: Err(BrowserSolveError::Launch(cause)),
            },
            (DriveStage::SetUserAgent, DriveEvent::Done) => DriveStage::Navigate,
            (DriveStage::SetUserAgent, DriveEvent::Failed(_)) => DriveStage::Navigate,
            (DriveStage::Navigate, DriveEvent::Done) => DriveStage::AwaitNavigation,
            (DriveStage::Navigate, DriveEvent::Failed(cause)) => DriveStage::Over {
                result: Err(BrowserSolveError::Navigation(cause)),
            },
            (DriveStage::AwaitNavigation, DriveEvent::Done) => DriveStage::Watch,
            (DriveStage::AwaitNavigation, DriveEvent::Failed(cause)) => DriveStage::Over {
                result: Err(BrowserSolveError::Navigation(cause)),
            },
            (DriveStage::Watch, DriveEvent::Page { body, expired }) => {
                let html: String = page_text(body);
                match poll(html.as_str(), expired) {
                    PollStep::Cleared => DriveStage::TakeCookies { cleared: true },
                    PollStep::Expired => DriveStage::TakeCookies { cleared: false },
                    PollStep::Wait => DriveStage::Pause,
                }
            },
            (DriveStage::Pause, DriveEvent::Done) => DriveStage::Watch,
            (DriveStage::TakeCookies { cleared }, DriveEvent::Cookies(list)) => {
                let cookies: Vec<SolvedCookie> = match list {
                    Some(l) => l,
                    None => Vec::new(),
                };
                DriveStage::TakePage { cleared, cookies }
            },
            (DriveStage::TakePage { cleared, cookies }, DriveEvent::Page { body, .. }) => {
                DriveStage::Locate {
                    state: FinalState {
                        cleared,
                        cookies,
                        html: page_text(body),
                        user_agent: plan.user_agent.clone(),
                    },
                }
            },
            (DriveStage::Locate { state }, DriveEvent::Location(reported)) => {
                let result = conclude(state, reported.as_str(), plan.url.as_str());
                DriveStage::Over { result }
            },
            (stage, _) => stage,
        };
        Drive { plan, stage }
    }
}

fn page_text(body: Option<String>) -> (r: String)
    ensures
        r@ == page(body),
{
    match body {
        Some(text) => text,
        None => String::new(),
    }
}

/// A run that is over stays as it is.
pub proof fn law_over_is_final(run: Drive, event: DriveEvent, next: DriveStage)
    requires
        run.stage is Over,
        run.follows(event, next),
    ensures
        next == run.stage,
{
}

/// Watching ends when the interstitial is gone or the time is up, whichever is
/// seen first, and not before.
pub proof fn law_watching_ends(run: Drive, body: Option<String>, expired: bool, next: DriveStage)
    requires
        run.stage is Watch,
        run.follows(DriveEvent::Page { body, expired }, next),
    ensures
        next is TakeCookies <==> expired || !shows_interstitial(page(body)),
        next is Pause <==> !expired && shows_interstitial(page(body)),
{
}

/// The states that a run goes through from its start, with the events between
/// them.
pub open spec fn is_run(runs: Seq<Drive>, events: Seq<DriveEvent>) -> bool {
    &&& runs.len() == events.len() + 1
    &&& runs[0].stage == DriveStage::Configure
    &&& forall|i: int|
        0 <= i < events.len() ==> {
            &&& runs[i + 1].plan == runs[i].plan
            &&& runs[i].follows(#[trigger] events[i], runs[i + 1].stage)
        }
}

/// Whether a look at the page, among the first `n` events of a run, found no
/// interstitial.
pub open spec fn seen_clear(runs: Seq<Drive>, events: Seq<DriveEvent>, n: int) -> bool {
    exists|i: int|
        0 <= i < n && runs[i].stage is Watch && (#[trigger] events[i] matches DriveEvent::Page {
            body,
            ..
        } && !shows_interstitial(page(body)))
}

/// Whether a look at the page was taken among the first `n` events of a run.
pub open spec fn looked(runs: Seq<Drive>, events: Seq<DriveEvent>, n: int) -> bool {
    exists|i: int| 0 <= i < n && runs[i].stage is Watch && #[trigger] events[i] is Page
}

/// Whether a clearance cookie came among the first `n` events of a run.
pub open spec fn clearance_came(runs: Seq<Drive>, events: Seq<DriveEvent>, n: int) -> bool {
    exists|i: int|
        0 <= i < n && runs[i].stage is TakeCookies && (#[trigger] events[i] matches DriveEvent::Cookies(
            Some(list),
        ) && cleared_by(list@))
}

/// A run ends well only if a look at the page found no interstitial or a
/// clearance cookie came, and then reports the user agent it was given.
pub proof fn law_success_has_evidence(
    runs: Seq<Drive>,
    events: Seq<DriveEvent>,
    outcome: BrowserSolveOutcome,
)
    requires
        is_run(runs, events),
        runs.last().stage == (DriveStage::Over { result: Ok(outcome) }),
    ensures
        looked(runs, events, events.len() as int),
        seen_clear(runs, events, events.len() as int) || clearance_came(
            runs,
            events,
            events.len() as int,
        ),
        cleared_by(outcome.cookies@) == clearance_came(runs, events, events.len() as int),
        outcome.user_agent == runs[0].plan.user_agent,
{
    lemma_run_so_far(runs, events, events.len() as int);
}

/// A run ends in a timeout only if at least one look at the page was taken,
/// every look showed an interstitial, and no clearance cookie came.
pub proof fn law_timeout_has_evidence(runs: Seq<Drive>, events: Seq<DriveEvent>)
    requires
        is_run(runs, events),
        runs.last().stage == gave_up(BrowserSolveError::Timeout),
    ensures
        looked(runs, events, events.len() as int),
        !seen_clear(runs, events, events.len() as int),
        !clearance_came(runs, events, events.len() as int),
{
    lemma_run_so_far(runs, events, events.len() as int);
}

/// A run that lands on a URL ends well if a look at the page found no
/// interstitial or a clearance cookie came, and in a timeout otherwise.
pub proof fn law_landing_decides(
    runs: Seq<Drive>,
    events: Seq<DriveEvent>,
    reported: String,
    next: DriveStage,
)
    requires
        is_run(runs, events),
        runs.last().stage is Locate,
        landing(reported@, runs[0].plan.url@) is Ok,
        runs.last().follows(DriveEvent::Location(reported), next),
    ensures
        next is Over,
        if seen_clear(runs, events, events.len() as int) || clearance_came(
            runs,
            events,
            events.len() as int,
        ) {
            next->result is Ok
        } else {
            next == gave_up(BrowserSolveError::Timeout)
        },
{
    lemma_run_so_far(runs, events, events.len() as int);
}

/// What is known of a run after some events.
spec fn so_far(runs: Seq<Drive>, events: Seq<DriveEvent>, n: int) -> bool {
    let seen = seen_clear(runs, events, n);
    let came = clearance_came(runs, events, n);
    &&& runs[n].plan == runs[0].plan
    &&& match runs[n].stage {
        DriveStage::TakeCookies { cleared } => {
            cleared == seen && !came && looked(runs, events, n)
        },
        DriveStage::TakePage { cleared, cookies } => {
            cleared == seen && cleared_by(cookies@) == came && looked(runs, events, n)
        },
        DriveStage::Locate { state } => {
            &&& state.cleared == seen
            &&& cleared_by(state.cookies@) == came
            &&& looked(runs, events, n)
            &&& state.user_agent == runs[0].plan.user_agent
        },
        DriveStage::Over { result: Ok(outcome) } => {
            &&& seen || came
            &&& cleared_by(outcome.cookies@) == came
            &&& looked(runs, events, n)
            &&& outcome.user_agent == runs[0].plan.user_agent
        },
        DriveStage::Over { result: Err(BrowserSolveError::Timeout) } => {
            !seen && !came && looked(runs, events, n)
        },
        DriveStage::Over { .. } => true,
        _ => !seen && !came,
    }
}

/// One more event adds to what was seen only if it is a look at the page, or
/// brings cookies.
proof fn lemma_one_more(runs: Seq<Drive>, events: Seq<DriveEvent>, k: int)
    requires
        0 <= k < events.len(),
    ensures
        looked(runs, events, k + 1) == (looked(runs, events, k) || (runs[k].stage is Watch
            && events[k] is Page)),
        seen_clear(runs, events, k + 1) == (seen_clear(runs, events, k) || (runs[k].stage is Watch
            && (events[k] matches DriveEvent::Page { body, .. } && !shows_interstitial(
            page(body),
        )))),
        clearance_came(runs, events, k + 1) == (clearance_came(runs, events, k) || (
        runs[k].stage is TakeCookies && (events[k] matches DriveEvent::Cookies(Some(list))
            && cleared_by(list@)))),
{
    if looked(runs, events, k) {
        let i = choose|i: int|
            0 <= i < k && runs[i].stage is Watch && #[trigger] events[i] is Page;
        assert(events[i] is Page);
        assert(looked(runs, events, k + 1));
    }
    if seen_clear(runs, events, k) {
        let i = choose|i: int|
            0 <= i < k && runs[i].stage is Watch && (#[trigger] events[i] matches DriveEvent::Page {
                body,
                ..
            } && !shows_interstitial(page(body)));
        assert(events[i] is Page);
        assert(seen_clear(runs, events, k + 1));
    }
    if clearance_came(runs, events, k) {
        let i = choose|i: int|
            0 <= i < k && runs[i].stage is TakeCookies && (
            #[trigger] events[i] matches DriveEvent::Cookies(Some(list)) && cleared_by(list@));
        assert(events[i] is Cookies);
        assert(clearance_came(runs, events, k + 1));
    }
}

proof fn lemma_run_so_far(runs: Seq<Drive>, events: Seq<DriveEvent>, n: int)
    requires
        is_run(runs, events),
        0 <= n <= events.len(),
    ensures
        so_far(runs, events, n),
    decreases n,
{
    if n > 0 {
        lemma_run_so_far(runs, events, n - 1);
        lemma_one_more(runs, events, n - 1);
        assert(runs[n - 1].follows(events[n - 1], runs[n].stage));
    }
}

/// The check for an interstitial ignores the case of ASCII letters.
pub proof fn law_markers_ignore_case(body: Seq<char>, other: Seq<char>)
    requires
        text::lower(body) == text::lower(other),
    ensures
        shows_interstitial(body) == shows_interstitial(other),
{
}

/// The domain that a cookie is stored under begins with no dot, and is the end
/// of the one it came with.
pub proof fn law_bare_domain(cookie: SolvedCookie)
    ensures
        cookie.bare_domain().len() == 0 || cookie.bare_domain().first() != '.',
        cookie.bare_domain().len() <= cookie.domain@.len(),
        cookie.bare_domain() == cookie.domain@.skip(
            cookie.domain@.len() - cookie.bare_domain().len(),
        ),
{
    lemma_stripped(cookie.domain@, '.');
}

proof fn lemma_stripped(s: Seq<char>, c: char)
    ensures
        ({
            let r = text::strip_leading(s, c);
            &&& r.len() == 0 || r.first() != c
            &&& r.len() <= s.len()
            &&& r == s.skip(s.len() - r.len())
        }),
    decreases s.len(),
{
    if s.len() > 0 && s.first() == c {
        lemma_stripped(s.drop_first(), c);
        let r = text::strip_leading(s, c);
        assert(s.drop_first().skip(s.len() - 1 - r.len()) =~= s.skip(s.len() - r.len()));
    } else {
        assert(s.skip(0) =~= s);
    }
}

} // verus!
