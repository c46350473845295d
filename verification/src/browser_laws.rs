//! What holds of the headless-browser fallback as a whole.

use crate::browser;
use crate::browser::{
    BrowserSolveError, BrowserSolveOutcome, Drive, DriveEvent, DriveStage, SolvedCookie,
};
use crate::text;
use crate::web_url;
use vstd::prelude::*;

verus! {

/// A proxy and a user agent that are given are each handed to the browser,
/// whether or not the other one is given, and none is that is not.
pub proof fn law_arguments_carry_the_request(
    user_agent: Option<Seq<char>>,
    proxy: Option<Seq<char>>,
)
    ensures
        ({
            let args = browser::launch_arguments(user_agent, proxy);
            &&& proxy matches Some(endpoint) ==> args.contains("--proxy-server="@ + endpoint)
            &&& user_agent matches Some(ua) ==> args.contains("--user-agent="@ + ua)
            &&& args.contains("--disable-blink-features=AutomationControlled"@)
            &&& args.contains("--disable-gpu"@)
            &&& args.contains("--no-sandbox"@)
            &&& args.contains("--disable-dev-shm-usage"@)
            &&& args.len() == 4 + (if user_agent is Some { 1int } else { 0 }) + (
            if proxy is Some { 1int } else { 0 })
        }),
{
    let args = browser::launch_arguments(user_agent, proxy);
    assert(args[0] == "--disable-blink-features=AutomationControlled"@);
    assert(args[1] == "--disable-gpu"@);
    assert(args[2] == "--no-sandbox"@);
    assert(args[3] == "--disable-dev-shm-usage"@);
    if let Some(ua) = user_agent {
        assert(args[4] == "--user-agent="@ + ua);
    }
    if let Some(endpoint) = proxy {
        assert(args[args.len() - 1] == "--proxy-server="@ + endpoint);
    }
}

/// What the request adds to the arguments comes after those that are always
/// there, first the user agent, then the proxy.
pub proof fn law_arguments_in_order(user_agent: Option<Seq<char>>, proxy: Option<Seq<char>>)
    ensures
        ({
            let plain = browser::launch_arguments(None, None);
            let agent = browser::launch_arguments(user_agent, None);
            let both = browser::launch_arguments(user_agent, proxy);
            &&& plain.len() == 4
            &&& agent.take(4) == plain
            &&& user_agent matches Some(ua) ==> agent == plain.push("--user-agent="@ + ua)
            &&& user_agent is None ==> agent == plain
            &&& proxy matches Some(endpoint) ==> both == agent.push("--proxy-server="@ + endpoint)
            &&& proxy is None ==> both == agent
        }),
{
    let agent = browser::launch_arguments(user_agent, None);
    assert(agent.take(4) =~= browser::launch_arguments(None, None));
}

/// A list of cookies clears a challenge just when a part of it does.
pub proof fn law_any_cookie_clears(a: Seq<SolvedCookie>, b: Seq<SolvedCookie>)
    ensures
        browser::cleared_by(a + b) == (browser::cleared_by(a) || browser::cleared_by(b)),
{
    let all = a + b;
    if browser::cleared_by(all) {
        let i = choose|i: int|
            0 <= i < all.len() && (#[trigger] all[i]).name@ == "cf_clearance"@;
        if i < a.len() {
            assert(a[i].name@ == "cf_clearance"@);
        } else {
            assert(b[i - a.len()].name@ == "cf_clearance"@);
        }
    }
    if browser::cleared_by(a) {
        let i = choose|i: int| 0 <= i < a.len() && (#[trigger] a[i]).name@ == "cf_clearance"@;
        assert(all[i].name@ == "cf_clearance"@);
    }
    if browser::cleared_by(b) {
        let i = choose|i: int| 0 <= i < b.len() && (#[trigger] b[i]).name@ == "cf_clearance"@;
        assert(all[a.len() + i].name@ == "cf_clearance"@);
    }
}

/// One cookie clears a challenge just by its name, whatever else it holds.
pub proof fn law_cookie_clears_by_name(cookie: SolvedCookie)
    ensures
        browser::cleared_by(seq![cookie]) == (cookie.name@ == "cf_clearance"@),
        !browser::cleared_by(Seq::empty()),
{
    assert(seq![cookie][0] == cookie);
}

/// A cookie is written out as its name and value, its domain without leading
/// dots, its path, and whether it is secure.
pub proof fn law_cookie_is_written_out(cookie: SolvedCookie)
    ensures
        ({
            let plain = cookie.name@ + "="@ + cookie.value@ + "; Domain="@ + text::strip_leading(
                cookie.domain@,
                '.',
            ) + "; Path="@ + cookie.path@;
            &&& cookie.secure ==> cookie.set_cookie() == plain + "; Secure"@
            &&& !cookie.secure ==> cookie.set_cookie() == plain
        }),
        cookie.reference() == "https://"@ + text::strip_leading(cookie.domain@, '.') + "/"@,
{
    let plain = cookie.name@ + "="@ + cookie.value@ + "; Domain="@ + text::strip_leading(
        cookie.domain@,
        '.',
    ) + "; Path="@ + cookie.path@;
    assert(plain + Seq::<char>::empty() =~= plain);
}

/// Two cookies whose domains differ only in leading dots are stored under the
/// same URL.
pub proof fn law_dots_make_no_difference(cookie: SolvedCookie, other: SolvedCookie, dots: Seq<char>)
    requires
        forall|i: int| 0 <= i < dots.len() ==> #[trigger] dots[i] == '.',
        other.domain@ == dots + cookie.domain@,
    ensures
        other.reference() == cookie.reference(),
        other.bare_domain() == cookie.bare_domain(),
    decreases dots.len(),
{
    lemma_dots(cookie.domain@, dots);
}

proof fn lemma_dots(s: Seq<char>, dots: Seq<char>)
    requires
        forall|i: int| 0 <= i < dots.len() ==> #[trigger] dots[i] == '.',
    ensures
        text::strip_leading(dots + s, '.') == text::strip_leading(s, '.'),
    decreases dots.len(),
{
    if dots.len() == 0 {
        assert(dots + s =~= s);
    } else {
        assert((dots + s).first() == dots[0]);
        assert((dots + s).drop_first() =~= dots.drop_first() + s);
        lemma_dots(s, dots.drop_first());
    }
}

/// Any of the marks of an interstitial shows one, in any case and whatever
/// stands before and after it.
pub proof fn law_marks_show_an_interstitial(before: Seq<char>, mark: Seq<char>, after: Seq<char>)
    requires
        ({
            let m = text::lower(mark);
            ||| m == "just a moment"@
            ||| m == "challenge-platform"@
            ||| m == "_cf_chl_opt"@
            ||| m == "cf_chl_opt"@
            ||| m == "cf-turnstile"@
            ||| m == "challenge-running"@
        }),
    ensures
        browser::shows_interstitial(before + mark + after),
{
    let m = text::lower(mark);
    let body = text::lower(before + mark + after);
    let k = before.len() as int;
    assert(body.subrange(k, k + m.len()) =~= m);
    assert(text::occurs(m, body));
    let marks = browser::markers();
    assert(marks[0] == "just a moment"@);
    assert(marks[1] == "challenge-platform"@);
    assert(marks[2] == "_cf_chl_opt"@);
    assert(marks[3] == "cf_chl_opt"@);
    assert(marks[4] == "cf-turnstile"@);
    assert(marks[5] == "challenge-running"@);
}

/// A page that shows an interstitial has one of its marks in it.
pub proof fn law_interstitial_has_a_mark(body: Seq<char>)
    requires
        browser::shows_interstitial(body),
    ensures
        ({
            let b = text::lower(body);
            ||| text::occurs("just a moment"@, b)
            ||| text::occurs("challenge-platform"@, b)
            ||| text::occurs("_cf_chl_opt"@, b)
            ||| text::occurs("cf_chl_opt"@, b)
            ||| text::occurs("cf-turnstile"@, b)
            ||| text::occurs("challenge-running"@, b)
        }),
{
}

/// An error says what went wrong and gives the cause in full.
pub proof fn law_errors_give_the_cause(cause: String)
    ensures
        BrowserSolveError::Launch(cause).described() == "failed to launch browser: "@ + cause@,
        BrowserSolveError::Navigation(cause).described() == "browser navigation failed: "@ + cause@,
        BrowserSolveError::Interaction(cause).described() == "browser interaction failed: "@
            + cause@,
        BrowserSolveError::Join(cause).described() == "browser task panicked or was cancelled: "@
            + cause@,
        BrowserSolveError::Timeout.described() == "challenge did not clear within the timeout"@,
{
}

/// The URL that the browser reports counts if it is one, and else the one asked
/// for.
pub proof fn law_reported_url_comes_first(reported: Seq<char>, requested: Seq<char>)
    ensures
        web_url::url_parts(reported) is Ok ==> browser::landing(reported, requested)
            == web_url::url_parts(reported),
        web_url::url_parts(reported) is Err ==> browser::landing(reported, requested)
            == web_url::url_parts(requested),
{
}

/// A run goes through its stages in order as long as they are done.
pub proof fn law_stages_in_order(run: Drive, next: DriveStage)
    requires
        run.follows(DriveEvent::Done, next),
    ensures
        run.stage is Configure ==> next is Launch,
        run.stage is Launch ==> next is OpenTab,
        run.stage is OpenTab && run.plan.user_agent is Some ==> next is SetUserAgent,
        run.stage is OpenTab && run.plan.user_agent is None ==> next is Navigate,
        run.stage is SetUserAgent ==> next is Navigate,
        run.stage is Navigate ==> next is AwaitNavigation,
        run.stage is AwaitNavigation ==> next is Watch,
        run.stage is Pause ==> next is Watch,
{
}

/// A failure of the browser to start ends a run as one of launching, a failure
/// to get to the page as one of navigation, with the cause given. That the user
/// agent could not be set ends nothing.
pub proof fn law_failures_end_a_run(run: Drive, cause: String, next: DriveStage)
    requires
        run.follows(DriveEvent::Failed(cause), next),
    ensures
        run.stage is Configure || run.stage is Launch || run.stage is OpenTab ==> next == (
        DriveStage::Over { result: Err(BrowserSolveError::Launch(cause)) }),
        run.stage is Navigate || run.stage is AwaitNavigation ==> next == (DriveStage::Over {
            result: Err(BrowserSolveError::Navigation(cause)),
        }),
        run.stage is SetUserAgent ==> next is Navigate,
        run.stage is Watch || run.stage is Pause || run.stage is TakeCookies
            || run.stage is TakePage || run.stage is Locate || run.stage is Over ==> next
            == run.stage,
{
}

/// A stage moves on only by the event it calls for.
pub proof fn law_other_events_change_nothing(run: Drive, event: DriveEvent, next: DriveStage)
    requires
        run.follows(event, next),
        match run.stage {
            DriveStage::Watch => !(event is Page),
            DriveStage::TakeCookies { .. } => !(event is Cookies),
            DriveStage::TakePage { .. } => !(event is Page),
            DriveStage::Locate { .. } => !(event is Location),
            DriveStage::Pause => !(event is Done),
            DriveStage::Over { .. } => true,
            _ => !(event is Done) && !(event is Failed),
        },
    ensures
        next == run.stage,
{
}

/// What the browser gave of cookies, none where they could not be had.
pub open spec fn given(list: Option<Vec<SolvedCookie>>) -> Seq<SolvedCookie> {
    if list is Some {
        list->0@
    } else {
        Seq::empty()
    }
}

/// Whether some cookies are those that the browser gave when it was asked, among
/// the first `n` events of a run.
pub open spec fn cookies_given(
    runs: Seq<Drive>,
    events: Seq<DriveEvent>,
    n: int,
    cookies: Seq<SolvedCookie>,
) -> bool {
    &&& exists|i: int|
        0 <= i < n && runs[i].stage is TakeCookies && #[trigger] events[i] is Cookies
    &&& forall|i: int|
        0 <= i < n && runs[i].stage is TakeCookies && (#[trigger] events[i]) is Cookies ==> cookies
            == given(events[i]->Cookies_0)
}

/// Whether no cookies were given yet.
pub open spec fn no_cookies_yet(runs: Seq<Drive>, events: Seq<DriveEvent>, n: int) -> bool {
    forall|i: int|
        0 <= i < n && runs[i].stage is TakeCookies ==> !((#[trigger] events[i]) is Cookies)
}

/// Whether a text is the page that the browser gave when it was asked for the
/// last one, empty where it could not be had.
pub open spec fn page_given(
    runs: Seq<Drive>,
    events: Seq<DriveEvent>,
    n: int,
    html: Seq<char>,
) -> bool {
    &&& exists|i: int| 0 <= i < n && runs[i].stage is TakePage && #[trigger] events[i] is Page
    &&& forall|i: int|
        0 <= i < n && runs[i].stage is TakePage && (#[trigger] events[i]) is Page ==> {
            if events[i]->body is Some {
                html == events[i]->body->0@
            } else {
                html.len() == 0
            }
        }
}

/// Whether no last page was given yet.
pub open spec fn no_page_yet(runs: Seq<Drive>, events: Seq<DriveEvent>, n: int) -> bool {
    forall|i: int| 0 <= i < n && runs[i].stage is TakePage ==> !((#[trigger] events[i]) is Page)
}

/// Whether a URL is the one that the browser reported when it was asked, or the
/// one it was sent to where the report is no URL.
pub open spec fn url_given(
    runs: Seq<Drive>,
    events: Seq<DriveEvent>,
    n: int,
    text: Seq<char>,
    host: Option<Seq<char>>,
) -> bool {
    &&& exists|i: int| 0 <= i < n && runs[i].stage is Locate && #[trigger] events[i] is Location
    &&& forall|i: int|
        0 <= i < n && runs[i].stage is Locate && (#[trigger] events[i]) is Location ==> {
            let reported = web_url::url_parts(events[i]->Location_0@);
            let sent = web_url::url_parts(runs[0].plan.url@);
            if reported is Ok {
                reported->Ok_0 == (text, host)
            } else {
                sent is Ok && sent->Ok_0 == (text, host)
            }
        }
}

/// Whether no URL was given yet.
pub open spec fn no_url_yet(runs: Seq<Drive>, events: Seq<DriveEvent>, n: int) -> bool {
    forall|i: int| 0 <= i < n && runs[i].stage is Locate ==> !((#[trigger] events[i]) is Location)
}

/// A run that ends well reports what the browser gave: its cookies, all of them
/// and in their order, its last page, the URL it ended at and the user agent it
/// was launched with.
pub proof fn law_outcome_is_what_the_browser_gave(
    runs: Seq<Drive>,
    events: Seq<DriveEvent>,
    outcome: BrowserSolveOutcome,
)
    requires
        browser::is_run(runs, events),
        runs.last().stage == (DriveStage::Over { result: Ok(outcome) }),
    ensures
        cookies_given(runs, events, events.len() as int, outcome.cookies@),
        page_given(runs, events, events.len() as int, outcome.html@),
        url_given(
            runs,
            events,
            events.len() as int,
            outcome.final_url.text(),
            outcome.final_url.host(),
        ),
        outcome.user_agent == runs[0].plan.user_agent,
{
    lemma_gathered(runs, events, events.len() as int);
}

/// What a run has gathered after some events.
spec fn gathered(runs: Seq<Drive>, events: Seq<DriveEvent>, n: int) -> bool {
    &&& runs[n].plan == runs[0].plan
    &&& match runs[n].stage {
        DriveStage::TakePage { cookies, .. } => {
            &&& cookies_given(runs, events, n, cookies@)
            &&& no_page_yet(runs, events, n)
            &&& no_url_yet(runs, events, n)
        },
        DriveStage::Locate { state } => {
            &&& cookies_given(runs, events, n, state.cookies@)
            &&& page_given(runs, events, n, state.html@)
            &&& no_url_yet(runs, events, n)
            &&& state.user_agent == runs[0].plan.user_agent
        },
        DriveStage::Over { result: Ok(outcome) } => {
            &&& cookies_given(runs, events, n, outcome.cookies@)
            &&& page_given(runs, events, n, outcome.html@)
            &&& url_given(
                runs,
                events,
                n,
                outcome.final_url.text(),
                outcome.final_url.host(),
            )
            &&& outcome.user_agent == runs[0].plan.user_agent
        },
        DriveStage::Over { .. } => true,
        _ => {
            &&& no_cookies_yet(runs, events, n)
            &&& no_page_yet(runs, events, n)
            &&& no_url_yet(runs, events, n)
        },
    }
}

proof fn lemma_gathered(runs: Seq<Drive>, events: Seq<DriveEvent>, n: int)
    requires
        browser::is_run(runs, events),
        0 <= n <= events.len(),
    ensures
        gathered(runs, events, n),
    decreases n,
{
    if n > 0 {
        let k = n - 1;
        lemma_gathered(runs, events, k);
        assert(runs[k].follows(events[k], runs[k + 1].stage));
        if exists|i: int|
            0 <= i < k && runs[i].stage is TakeCookies && #[trigger] events[i] is Cookies {
            let i = choose|i: int|
                0 <= i < k && runs[i].stage is TakeCookies && #[trigger] events[i] is Cookies;
            assert(0 <= i < n && runs[i].stage is TakeCookies && events[i] is Cookies);
        }
        if exists|i: int| 0 <= i < k && runs[i].stage is TakePage && #[trigger] events[i] is Page {
            let i = choose|i: int|
                0 <= i < k && runs[i].stage is TakePage && #[trigger] events[i] is Page;
            assert(0 <= i < n && runs[i].stage is TakePage && events[i] is Page);
        }
        if exists|i: int| 0 <= i < k && runs[i].stage is Locate && #[trigger] events[i] is Location {
            let i = choose|i: int|
                0 <= i < k && runs[i].stage is Locate && #[trigger] events[i] is Location;
            assert(0 <= i < n && runs[i].stage is Locate && events[i] is Location);
        }
    }
}

/// A run that ends in an error of launching or navigation was told so by the
/// browser, or has no URL to report.
pub proof fn law_errors_come_from_the_browser(
    run: Drive,
    event: DriveEvent,
    error: BrowserSolveError,
)
    requires
        !(run.stage is Over),
        run.follows(event, DriveStage::Over { result: Err(error) }),
    ensures
        match error {
            BrowserSolveError::Launch(cause) => event == DriveEvent::Failed(cause),
            BrowserSolveError::Navigation(cause) => event == DriveEvent::Failed(cause) || (
            event matches DriveEvent::Location(reported) && web_url::url_parts(reported@) is Err
                && web_url::url_parts(run.plan.url@) == Err::<
                (Seq<char>, Option<Seq<char>>),
                Seq<char>,
            >(cause@)),
            BrowserSolveError::Timeout => event is Location,
            _ => false,
        },
{
}

/// A look at the page decides by the whole page. A page that could not be read
/// counts as clear.
pub proof fn law_look_decides(run: Drive, body: Option<String>, expired: bool, next: DriveStage)
    requires
        run.stage is Watch,
        run.follows(DriveEvent::Page { body, expired }, next),
    ensures
        body matches Some(text) ==> next == if !browser::shows_interstitial(text@) {
            DriveStage::TakeCookies { cleared: true }
        } else if expired {
            DriveStage::TakeCookies { cleared: false }
        } else {
            DriveStage::Pause
        },
        body is None ==> next == (DriveStage::TakeCookies { cleared: true }),
{
    if body is None {
        reveal_strlit("just a moment");
        reveal_strlit("challenge-platform");
        reveal_strlit("_cf_chl_opt");
        reveal_strlit("cf_chl_opt");
        reveal_strlit("cf-turnstile");
        reveal_strlit("challenge-running");
        let none = text::lower(Seq::empty());
        assert(none.len() == 0);
        assert forall|i: int| 0 <= i < browser::markers().len() implies !text::occurs(
            #[trigger] browser::markers()[i],
            none,
        ) by {
            assert(browser::markers()[i].len() > 0);
        }
    }
}

/// An optional slice holds the text that it was given, even an empty one.
pub proof fn law_viewed(s: &str)
    ensures
        browser::viewed(Some(s)) == Some(s@),
        browser::viewed(None) is None,
{
}

} // verus!
