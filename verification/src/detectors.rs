//! Detection of challenges by the patterns that their pages show.
//!
//! A response counts as a challenge by its status and headers. Each pattern is
//! scored by the share of its indicators found in the body, weighted by its
//! base confidence and raised by its record of successes; the best score of at
//! least one half is the detection.

use crate::ieee::{Float, Format};
use crate::pattern_search;
use crate::text;
use crate::text_map::TextMap;
use crate::web_url::WebUrl;
use std::collections::VecDeque;
use std::time::SystemTime;
use vstd::prelude::*;

verus! {

/// `std::time::SystemTime`, which is carried and never looked into.
#[verifier::external_type_specification]
#[verifier::external_body]
pub struct ExSystemTime(std::time::SystemTime);

/// `std::time::SystemTime::now`: the clock's reading, whatever it is.
pub assume_specification[ std::time::SystemTime::now ]() -> (r: std::time::SystemTime)
;

/// The lower-case form of a text by the Unicode tables.
pub uninterp spec fn lowercase(s: Seq<char>) -> Seq<char>;

/// `str::to_lowercase`: the result depends on the text alone.
pub assume_specification[ str::to_lowercase ](s: &str) -> (r: String)
    ensures
        r@ == lowercase(s@),
;

/// The kinds of challenge.
#[derive(Debug, Clone, Copy, PartialEq, Eq, Hash, Structural)]
pub enum ChallengeType {
    JavaScriptV1,
    JavaScriptV2,
    ManagedV3,
    /// Managed or interactive challenge served via `orchestrate/chl_page/v1`,
    /// which only a real browser can clear.
    ManagedInteractive,
    Turnstile,
    RateLimit,
    AccessDenied,
    BotManagement,
    Unknown,
}

/// The recommended response to a detected challenge.
#[derive(Debug, Clone, Copy, PartialEq, Eq, Hash, Structural)]
pub enum ResponseStrategy {
    JsExecution,
    AdvancedJsExecution,
    BrowserSimulation,
    CaptchaSolving,
    DelayRetry,
    ProxyRotation,
    EnhancedEvasion,
    NoAction,
}

/// One header of a response.
#[derive(Debug, Clone, PartialEq, Eq)]
pub struct HeaderField {
    pub name: String,
    pub value: Vec<u8>,
}

/// An HTTP response as the detector sees it.
#[derive(Debug, Clone)]
pub struct ChallengeResponse {
    pub url: WebUrl,
    pub status: u16,
    pub headers: Vec<HeaderField>,
    pub body: String,
    pub request_method: String,
}

/// The first value of a header; names are compared without regard to case.
pub open spec fn first_value(headers: Seq<HeaderField>, name: Seq<char>) -> Option<Seq<u8>>
    decreases headers.len(),
{
    if headers.len() == 0 {
        None
    } else if text::lower(headers.first().name@) == text::lower(name) {
        Some(headers.first().value@)
    } else {
        first_value(headers.drop_first(), name)
    }
}

/// Whether bytes spell an ASCII word, without regard to case.
pub open spec fn spells(value: Seq<u8>, word: Seq<char>) -> bool {
    &&& value.len() == word.len()
    &&& forall|i: int|
        0 <= i < value.len() ==> text::lower_char(#[trigger] value[i] as char) == text::lower_char(
            word[i],
        )
}

impl ChallengeResponse {
    /// Whether the first value of a header spells a word.
    pub open spec fn header_spells(self, name: Seq<char>, word: Seq<char>) -> bool {
        first_value(self.headers@, name) matches Some(value) && spells(value, word)
    }

    /// Whether the response counts as one from Cloudflare. The rule is this
    /// library's own: the `server` header is just "cloudflare", in any case, or
    /// there is a `cf-ray` header.
    pub open spec fn from_cloudflare(self) -> bool {
        self.header_spells("server"@, "cloudflare"@) || first_value(self.headers@, "cf-ray"@) is Some
    }

    /// Whether the response is a challenge: from Cloudflare, with one of the
    /// usual statuses or a header that says so on any status.
    pub open spec fn is_challenge(self) -> bool {
        &&& self.from_cloudflare()
        &&& self.status == 403 || self.status == 429 || self.status == 503 || self.header_spells(
            "cf-mitigated"@,
            "challenge"@,
        )
    }

    /// The host in lower case.
    pub open spec fn domain(self) -> Option<Seq<char>> {
        match self.url.host() {
            Some(host) => Some(lowercase(host)),
            None => None,
        }
    }
}

fn spells_word(value: &Vec<u8>, word: &str) -> (r: bool)
    ensures
        r == spells(value@, word@),
{
    let letters: Vec<char> = text::chars_of(word);
    if value.len() != letters.len() {
        return false;
    }
    let mut i: usize = 0;
    while i < value.len()
        invariant
            i <= value@.len(),
            value@.len() == letters@.len(),
            letters@ == word@,
            forall|j: int|
                0 <= j < i ==> text::lower_char(#[trigger] value@[j] as char) == text::lower_char(
                    word@[j],
                ),
        decreases value@.len() - i,
    {
        if text::lower_char_of(value[i] as char) != text::lower_char_of(letters[i]) {
            return false;
        }
        i += 1;
    }
    true
}

fn first_header<'a>(headers: &'a Vec<HeaderField>, name: &str) -> (r: Option<&'a Vec<u8>>)
    ensures
        match r {
            Some(value) => first_value(headers@, name@) == Some(value@),
            None => first_value(headers@, name@) is None,
        },
{
    let mut i: usize = 0;
    assert(headers@.skip(0) =~= headers@);
    while i < headers.len()
        invariant
            i <= headers@.len(),
            first_value(headers@, name@) == first_value(headers@.skip(i as int), name@),
        decreases headers@.len() - i,
    {
        if text::same_ignoring_case(headers[i].name.as_str(), name) {
            return Some(&headers[i].value);
        }
        assert(headers@.skip(i as int).drop_first() =~= headers@.skip(i + 1));
        i += 1;
    }
    None
}

fn header_says(headers: &Vec<HeaderField>, name: &str, word: &str) -> (r: bool)
    ensures
        r == (first_value(headers@, name@) matches Some(value) && spells(value, word@)),
{
    match first_header(headers, name) {
        Some(value) => spells_word(value, word),
        None => false,
    }
}

/// Whether the response counts as one from Cloudflare, by this library's own
/// rule: the `server` header is just "cloudflare", in any case, or there is a
/// `cf-ray` header.
pub fn is_cloudflare_response(response: &ChallengeResponse) -> (r: bool)
    ensures
        r == response.from_cloudflare(),
{
    header_says(&response.headers, "server", "cloudflare") || first_header(
        &response.headers,
        "cf-ray",
    ).is_some()
}

/// The host of the response in lower case.
pub fn response_domain(response: &ChallengeResponse) -> (r: Option<String>)
    ensures
        match r {
            Some(domain) => response.domain() == Some(domain@),
            None => response.domain() is None,
        },
{
    match response.url.host_str() {
        Some(host) => Some(host.to_lowercase()),
        None => None,
    }
}

/// A pattern: what it stands for and the indicators that give it away.
#[derive(Debug)]
pub struct ChallengePattern {
    id: String,
    name: String,
    challenge_type: ChallengeType,
    response_strategy: ResponseStrategy,
    base_confidence: Float,
    indicators: Vec<String>,
    adaptive: bool,
}

/// What a pattern holds.
#[verifier::ext_equal]
pub struct PatternView {
    pub id: Seq<char>,
    pub name: Seq<char>,
    pub challenge_type: ChallengeType,
    pub response_strategy: ResponseStrategy,
    pub base_confidence: Float,
    pub indicators: Seq<Seq<char>>,
    pub adaptive: bool,
}

impl View for ChallengePattern {
    type V = PatternView;

    closed spec fn view(&self) -> PatternView {
        PatternView {
            id: self.id@,
            name: self.name@,
            challenge_type: self.challenge_type,
            response_strategy: self.response_strategy,
            base_confidence: self.base_confidence,
            indicators: text::views(self.indicators@),
            adaptive: self.adaptive,
        }
    }
}

/// The views of a list of patterns.
pub open spec fn pattern_views(list: Seq<ChallengePattern>) -> Seq<PatternView> {
    list.map_values(|p: ChallengePattern| p@)
}

/// The views of a list of string slices.
pub open spec fn slices(list: Seq<&str>) -> Seq<Seq<char>> {
    list.map_values(|s: &str| s@)
}

/// How often a pattern was acted on, and how often with success.
#[derive(Debug, Clone, Copy)]
pub struct PatternStats {
    pub attempts: u32,
    pub successes: u32,
}

impl PatternStats {
    /// The record with one more outcome; counts stop at the largest `u32`.
    pub open spec fn recorded(self, success: bool) -> PatternStats {
        PatternStats {
            attempts: if self.attempts < u32::MAX { (self.attempts + 1) as u32 } else { self.attempts },
            successes: if success && self.successes < u32::MAX {
                (self.successes + 1) as u32
            } else {
                self.successes
            },
        }
    }

    /// The share of successes, zero without attempts.
    pub open spec fn rate(self) -> Float {
        if self.attempts == 0 {
            Float::of_count(Format::Single, 0)
        } else {
            Float::of_count(Format::Single, self.successes as nat).over(
                Format::Single,
                Float::of_count(Format::Single, self.attempts as nat),
            )
        }
    }

    /// Records an outcome.
    pub fn record(&mut self, success: bool)
        ensures
            *final(self) == old(self).recorded(success),
    {
        self.attempts = self.attempts.saturating_add(1);
        if success {
            self.successes = self.successes.saturating_add(1);
        }
    }

    /// The share of successes, zero without attempts.
    pub fn success_rate(&self) -> (r: Float)
        ensures
            r == self.rate(),
            r.wf(Format::Single),
    {
        if self.attempts == 0 {
            Float::from_count(Format::Single, 0)
        } else {
            Float::from_count(Format::Single, self.successes as u64).divide(
                Format::Single,
                Float::from_count(Format::Single, self.attempts as u64),
            )
        }
    }
}

/// A share in hundredths as a single-precision number.
pub open spec fn hundredths(n: nat) -> Float {
    Float::of_ratio(Format::Single, n, 100)
}

fn from_hundredths(n: u64) -> (r: Float)
    ensures
        r == hundredths(n as nat),
        r.wf(Format::Single),
{
    Float::from_ratio(Format::Single, n, 100)
}

impl PatternView {
    /// A pattern that was not discovered at run time.
    pub open spec fn known(
        id: Seq<char>,
        name: Seq<char>,
        challenge_type: ChallengeType,
        response_strategy: ResponseStrategy,
        base_confidence: Float,
        indicators: Seq<Seq<char>>,
    ) -> PatternView {
        PatternView {
            id,
            name,
            challenge_type,
            response_strategy,
            base_confidence,
            indicators,
            adaptive: false,
        }
    }

    /// The indicators found in a body.
    pub open spec fn found(self, body: Seq<char>) -> Seq<Seq<char>> {
        self.indicators.filter(|i: Seq<char>| pattern_search::indicates(i, body))
    }

    /// The confidence for a number of indicators found, before it is held to
    /// one: the share found, weighted by the base confidence, plus a tenth of
    /// the rate of successes.
    pub open spec fn confidence(self, found: nat, stats: Option<PatternStats>) -> Float {
        let f = Format::Single;
        let share = Float::of_count(f, found).over(f, Float::of_count(f, self.indicators.len()));
        let weighted = share.times(f, self.base_confidence);
        match stats {
            Some(s) => weighted.plus(f, s.rate().times(f, Float::of_ratio(f, 1, 10))),
            None => weighted,
        }
    }

    /// The score for a number of indicators found: nothing without an
    /// indicator or under one half, one at most.
    pub open spec fn score(self, found: nat, stats: Option<PatternStats>) -> Option<Float> {
        let capped = at_most_one(self.confidence(found, stats));
        if found == 0 || capped.below(Float::of_ratio(Format::Single, 1, 2)) {
            None
        } else {
            Some(capped)
        }
    }
}

/// The number, or one where it is more than one or not a number.
pub open spec fn at_most_one(x: Float) -> Float {
    let one = Float::of_count(Format::Single, 1);
    if x is NotANumber || one.below(x) {
        one
    } else {
        x
    }
}

impl ChallengePattern {
    #[verifier::type_invariant]
    spec fn weighed(self) -> bool {
        self.base_confidence.wf(Format::Single)
    }

    /// A pattern with its base confidence, a single-precision number.
    pub fn new(
        id: &str,
        name: &str,
        challenge_type: ChallengeType,
        response_strategy: ResponseStrategy,
        base_confidence: Float,
        indicators: Vec<&str>,
    ) -> (r: ChallengePattern)
        requires
            base_confidence.wf(Format::Single),
        ensures
            r@ == PatternView::known(
                id@,
                name@,
                challenge_type,
                response_strategy,
                base_confidence,
                slices(indicators@),
            ),
    {
        let mut owned: Vec<String> = Vec::new();
        let mut i: usize = 0;
        while i < indicators.len()
            invariant
                i <= indicators@.len(),
                text::views(owned@) == slices(indicators@).take(i as int),
            decreases indicators@.len() - i,
        {
            let ghost before = text::views(owned@);
            owned.push(indicators[i].to_owned());
            assert(text::views(owned@) =~= before.push(indicators@[i as int]@));
            assert(slices(indicators@).take(i + 1) =~= slices(indicators@).take(i as int).push(
                indicators@[i as int]@,
            ));
            i += 1;
        }
        assert(slices(indicators@).take(i as int) =~= slices(indicators@));
        ChallengePattern {
            id: id.to_owned(),
            name: name.to_owned(),
            challenge_type,
            response_strategy,
            base_confidence,
            indicators: owned,
            adaptive: false,
        }
    }

    /// The pattern marked as discovered at run time.
    pub fn into_adaptive(self) -> (r: ChallengePattern)
        ensures
            r@ == (PatternView { adaptive: true, ..self@ }),
    {
        proof {
            use_type_invariant(&self);
        }
        ChallengePattern { adaptive: true, ..self }
    }

    /// The indicators found in a body.
    pub fn matched(&self, body: &str) -> (r: Vec<String>)
        ensures
            text::views(r@) == self@.found(body@),
    {
        let mut matched: Vec<String> = Vec::new();
        let mut i: usize = 0;
        let ghost all = text::views(self.indicators@);
        let ghost pred = |i: Seq<char>| pattern_search::indicates(i, body@);
        assert(all.take(0).filter(pred) =~= text::views(matched@)) by {
            reveal(Seq::filter);
        }
        while i < self.indicators.len()
            invariant
                i <= self.indicators@.len(),
                all == text::views(self.indicators@),
                pred == (|i: Seq<char>| pattern_search::indicates(i, body@)),
                text::views(matched@) == all.take(i as int).filter(pred),
            decreases self.indicators@.len() - i,
        {
            assert(all[i as int] == self.indicators@[i as int]@);
            assert(all.take(i + 1) =~= all.take(i as int).push(all[i as int]));
            proof {
                all.take(i as int).lemma_filter_push(all[i as int], pred);
            }
            let ghost before = text::views(matched@);
            if pattern_search::is_indicated(self.indicators[i].as_str(), body) {
                matched.push(self.indicators[i].clone());
                assert(text::views(matched@) =~= before.push(all[i as int]));
            }
            i += 1;
        }
        assert(all.take(i as int) =~= all);
        matched
    }

    /// The score for a number of indicators found.
    pub fn scored(&self, found: usize, stats: Option<&PatternStats>) -> (r: Option<Float>)
        ensures
            r == self@.score(
                found as nat,
                match stats {
                    Some(s) => Some(*s),
                    None => None,
                },
            ),
            r matches Some(c) ==> c.wf(Format::Single),
    {
        proof {
            use_type_invariant(self);
        }
        if found == 0 {
            return None;
        }
        let f: Format = Format::Single;
        let total: Float = Float::from_count(f, self.indicators.len() as u64);
        let share: Float = Float::from_count(f, found as u64).divide(f, total);
        let weighted: Float = share.multiply(f, self.base_confidence);
        let confidence: Float = match stats {
            Some(s) => weighted.add(f, s.success_rate().multiply(f, Float::from_ratio(f, 1, 10))),
            None => weighted,
        };
        let one: Float = Float::from_count(f, 1);
        let capped: Float = if matches!(confidence, Float::NotANumber) || one.less_than(
            f,
            confidence,
        ) {
            one
        } else {
            confidence
        };
        if capped.less_than(f, Float::from_ratio(f, 1, 2)) {
            None
        } else {
            Some(capped)
        }
    }
}

/// The patterns that a detector starts with.
pub open spec fn known_patterns() -> Seq<PatternView> {
    seq![
        PatternView::known(
            "cf_iuam_v1"@,
            "Cloudflare IUAM v1"@,
            ChallengeType::JavaScriptV1,
            ResponseStrategy::JsExecution,
            hundredths(95),
            seq![
                r#"<title>\s*Just a moment\.\.\.\s*</title>"#@,
                r"var s,t,o,p,b,r,e,a,k,i,n,g,f,u,l,l,y,h,a,r,d,c,o,r,e"@,
                r#"setTimeout\(function\(\)\s*\{\s*var.*?\.submit\(\)"#@,
                r#"<form[^>]*id="challenge-form"[^>]*action="/[^"]*__cf_chl_f_tk="#@,
            ],
        ),
        PatternView::known(
            "cf_iuam_v2"@,
            "Cloudflare IUAM v2"@,
            ChallengeType::JavaScriptV2,
            ResponseStrategy::AdvancedJsExecution,
            hundredths(90),
            seq![
                r#"cpo\.src\s*=\s*['"]/cdn-cgi/challenge-platform/.*?orchestrate/jsch/v1"#@,
                r"window\._cf_chl_opt\s*="@,
                r#"<form[^>]*id="challenge-form"[^>]*action="/[^"]*__cf_chl_rt_tk="#@,
            ],
        ),
        PatternView::known(
            "cf_managed_v3"@,
            "Cloudflare Managed Challenge v3"@,
            ChallengeType::ManagedV3,
            ResponseStrategy::BrowserSimulation,
            hundredths(92),
            seq![
                r#"cpo\.src\s*=\s*['"]/cdn-cgi/challenge-platform/.*?orchestrate/(?:captcha|managed)/v1"#@,
                r"window\._cf_chl_ctx\s*="@,
                r#"data-ray="[A-Fa-f0-9]+""#@,
                r#"<div[^>]*class="cf-browser-verification"#@,
            ],
        ),
        PatternView::known(
            "cf_managed_chl_page"@,
            "Cloudflare Managed Challenge (chl_page/interactive)"@,
            ChallengeType::ManagedInteractive,
            ResponseStrategy::BrowserSimulation,
            hundredths(93),
            seq![
                r"window\._cf_chl_opt\s*="@,
                r#"/cdn-cgi/challenge-platform/[^'"]*orchestrate/(?:chl_page|managed|captcha|jsch)/v1"#@,
                r#"cType\s*:\s*['"](?:managed|interactive)['"]"#@,
            ],
        ),
        PatternView::known(
            "cf_turnstile"@,
            "Cloudflare Turnstile"@,
            ChallengeType::Turnstile,
            ResponseStrategy::CaptchaSolving,
            hundredths(98),
            seq![
                r#"class="cf-turnstile""#@,
                r#"data-sitekey="[0-9A-Za-z]{40}""#@,
                r#"src="https://challenges\.cloudflare\.com/turnstile/v0/api\.js"#@,
                r"cf-turnstile-response"@,
            ],
        ),
        PatternView::known(
            "cf_rate_limit"@,
            "Cloudflare Rate Limit"@,
            ChallengeType::RateLimit,
            ResponseStrategy::DelayRetry,
            hundredths(99),
            seq![
                r#"<span[^>]*class="cf-error-code">1015<"#@,
                r"You are being rate limited"@,
                r#"<title>\s*Rate Limited\s*</title>"#@,
            ],
        ),
        PatternView::known(
            "cf_access_denied"@,
            "Cloudflare Access Denied"@,
            ChallengeType::AccessDenied,
            ResponseStrategy::ProxyRotation,
            hundredths(99),
            seq![
                r#"<span[^>]*class="cf-error-code">1020<"#@,
                r"Access denied"@,
                r"The owner of this website has banned your access"@,
            ],
        ),
        PatternView::known(
            "cf_bot_management"@,
            "Cloudflare Bot Management"@,
            ChallengeType::BotManagement,
            ResponseStrategy::EnhancedEvasion,
            hundredths(95),
            seq![
                r#"<span[^>]*class="cf-error-code">1010<"#@,
                r"Bot management"@,
                r"has banned you temporarily"@,
            ],
        ),
    ]
}

fn known_pattern_list() -> (r: Vec<ChallengePattern>)
    ensures
        pattern_views(r@) == known_patterns(),
{
    let mut r: Vec<ChallengePattern> = Vec::new();
    r.push(
        ChallengePattern::new(
            "cf_iuam_v1",
            "Cloudflare IUAM v1",
            ChallengeType::JavaScriptV1,
            ResponseStrategy::JsExecution,
            from_hundredths(95),
            vec![
                r#"<title>\s*Just a moment\.\.\.\s*</title>"#,
                r"var s,t,o,p,b,r,e,a,k,i,n,g,f,u,l,l,y,h,a,r,d,c,o,r,e",
                r#"setTimeout\(function\(\)\s*\{\s*var.*?\.submit\(\)"#,
                r#"<form[^>]*id="challenge-form"[^>]*action="/[^"]*__cf_chl_f_tk="#,
            ],
        ),
    );
    r.push(
        ChallengePattern::new(
            "cf_iuam_v2",
            "Cloudflare IUAM v2",
            ChallengeType::JavaScriptV2,
            ResponseStrategy::AdvancedJsExecution,
            from_hundredths(90),
            vec![
                r#"cpo\.src\s*=\s*['"]/cdn-cgi/challenge-platform/.*?orchestrate/jsch/v1"#,
                r"window\._cf_chl_opt\s*=",
                r#"<form[^>]*id="challenge-form"[^>]*action="/[^"]*__cf_chl_rt_tk="#,
            ],
        ),
    );
    r.push(
        ChallengePattern::new(
            "cf_managed_v3",
            "Cloudflare Managed Challenge v3",
            ChallengeType::ManagedV3,
            ResponseStrategy::BrowserSimulation,
            from_hundredths(92),
            vec![
                r#"cpo\.src\s*=\s*['"]/cdn-cgi/challenge-platform/.*?orchestrate/(?:captcha|managed)/v1"#,
                r"window\._cf_chl_ctx\s*=",
                r#"data-ray="[A-Fa-f0-9]+""#,
                r#"<div[^>]*class="cf-browser-verification"#,
            ],
        ),
    );
    r.push(
        ChallengePattern::new(
            "cf_managed_chl_page",
            "Cloudflare Managed Challenge (chl_page/interactive)",
            ChallengeType::ManagedInteractive,
            ResponseStrategy::BrowserSimulation,
            from_hundredths(93),
            vec![
                r"window\._cf_chl_opt\s*=",
                r#"/cdn-cgi/challenge-platform/[^'"]*orchestrate/(?:chl_page|managed|captcha|jsch)/v1"#,
                r#"cType\s*:\s*['"](?:managed|interactive)['"]"#,
            ],
        ),
    );
    r.push(
        ChallengePattern::new(
            "cf_turnstile",
            "Cloudflare Turnstile",
            ChallengeType::Turnstile,
            ResponseStrategy::CaptchaSolving,
            from_hundredths(98),
            vec![
                r#"class="cf-turnstile""#,
                r#"data-sitekey="[0-9A-Za-z]{40}""#,
                r#"src="https://challenges\.cloudflare\.com/turnstile/v0/api\.js"#,
                r"cf-turnstile-response",
            ],
        ),
    );
    r.push(
        ChallengePattern::new(
            "cf_rate_limit",
            "Cloudflare Rate Limit",
            ChallengeType::RateLimit,
            ResponseStrategy::DelayRetry,
            from_hundredths(99),
            vec![
                r#"<span[^>]*class="cf-error-code">1015<"#,
                r"You are being rate limited",
                r#"<title>\s*Rate Limited\s*</title>"#,
            ],
        ),
    );
    r.push(
        ChallengePattern::new(
            "cf_access_denied",
            "Cloudflare Access Denied",
            ChallengeType::AccessDenied,
            ResponseStrategy::ProxyRotation,
            from_hundredths(99),
            vec![
                r#"<span[^>]*class="cf-error-code">1020<"#,
                r"Access denied",
                r"The owner of this website has banned your access",
            ],
        ),
    );
    r.push(
        ChallengePattern::new(
            "cf_bot_management",
            "Cloudflare Bot Management",
            ChallengeType::BotManagement,
            ResponseStrategy::EnhancedEvasion,
            from_hundredths(95),
            vec![
                r#"<span[^>]*class="cf-error-code">1010<"#,
                r"Bot management",
                r"has banned you temporarily",
            ],
        ),
    );
    assert(pattern_views(r@) =~~= known_patterns());
    r
}

/// A detected challenge.
#[derive(Debug, Clone)]
pub struct ChallengeDetection {
    pub pattern_id: String,
    pub pattern_name: String,
    pub challenge_type: ChallengeType,
    pub response_strategy: ResponseStrategy,
    /// A single-precision number.
    pub confidence: Float,
    pub is_adaptive: bool,
    pub status_code: u16,
    pub url: String,
    pub matched_indicators: Vec<String>,
}

/// What a detection holds.
#[verifier::ext_equal]
pub struct DetectionView {
    pub pattern_id: Seq<char>,
    pub pattern_name: Seq<char>,
    pub challenge_type: ChallengeType,
    pub response_strategy: ResponseStrategy,
    pub confidence: Float,
    pub is_adaptive: bool,
    pub status_code: u16,
    pub url: Seq<char>,
    pub matched_indicators: Seq<Seq<char>>,
}

impl View for ChallengeDetection {
    type V = DetectionView;

    open spec fn view(&self) -> DetectionView {
        DetectionView {
            pattern_id: self.pattern_id@,
            pattern_name: self.pattern_name@,
            challenge_type: self.challenge_type,
            response_strategy: self.response_strategy,
            confidence: self.confidence,
            is_adaptive: self.is_adaptive,
            status_code: self.status_code,
            url: self.url@,
            matched_indicators: text::views(self.matched_indicators@),
        }
    }
}

/// A record of a past detection.
#[derive(Debug)]
pub struct DetectionLogEntry {
    pub timestamp: SystemTime,
    pub pattern_id: String,
    /// A single-precision number.
    pub confidence: Float,
    pub url: String,
}

/// What a record of a past detection holds.
#[verifier::ext_equal]
pub struct LogView {
    pub timestamp: SystemTime,
    pub pattern_id: Seq<char>,
    pub confidence: Float,
    pub url: Seq<char>,
}

impl View for DetectionLogEntry {
    type V = LogView;

    open spec fn view(&self) -> LogView {
        LogView {
            timestamp: self.timestamp,
            pattern_id: self.pattern_id@,
            confidence: self.confidence,
            url: self.url@,
        }
    }
}

impl Clone for DetectionLogEntry {
    fn clone(&self) -> (r: DetectionLogEntry)
        ensures
            r@ == self@,
    {
        DetectionLogEntry {
            timestamp: self.timestamp,
            pattern_id: self.pattern_id.clone(),
            confidence: self.confidence,
            url: self.url.clone(),
        }
    }
}

/// How many past detections are kept.
pub const MAX_HISTORY: usize = 1000;

/// A history with one more record; the oldest gives way where it is full.
pub open spec fn logged(history: Seq<LogView>, entry: LogView) -> Seq<LogView> {
    if history.len() == MAX_HISTORY {
        history.drop_first().push(entry)
    } else {
        history.push(entry)
    }
}

/// The views of a list of records.
pub open spec fn log_views(list: Seq<DetectionLogEntry>) -> Seq<LogView> {
    list.map_values(|e: DetectionLogEntry| e@)
}

/// The past detections, oldest first, never more than the limit, each with a
/// confidence of single precision.
#[derive(Debug)]
struct DetectionLog {
    records: VecDeque<DetectionLogEntry>,
}

impl DetectionLog {
    spec fn history(self) -> Seq<LogView> {
        log_views(self.records@)
    }

    #[verifier::type_invariant]
    spec fn kept(self) -> bool {
        &&& self.records@.len() <= MAX_HISTORY
        &&& forall|i: int|
            0 <= i < self.records@.len() ==> (#[trigger] self.records@[i]).confidence.wf(
                Format::Single,
            )
    }

    fn new() -> (r: DetectionLog)
        ensures
            r.history() == Seq::<LogView>::empty(),
    {
        let r = DetectionLog { records: VecDeque::with_capacity(128) };
        assert(r.history() =~= Seq::<LogView>::empty());
        r
    }

    fn record(&mut self, entry: DetectionLogEntry)
        requires
            entry.confidence.wf(Format::Single),
        ensures
            final(self).history() == logged(old(self).history(), entry@),
            final(self).history().len() <= MAX_HISTORY,
    {
        proof {
            use_type_invariant(&*self);
        }
        let mut records: VecDeque<DetectionLogEntry> = VecDeque::new();
        std::mem::swap(&mut records, &mut self.records);
        let ghost before = records@;
        if records.len() == MAX_HISTORY {
            let _ = records.pop_front();
            assert(log_views(records@) =~= log_views(before).drop_first());
        }
        let ghost kept = records@;
        let ghost view = entry@;
        records.push_back(entry);
        assert(log_views(records@) =~= log_views(kept).push(view));
        self.records = records;
    }

    fn entries(&self) -> (r: Vec<DetectionLogEntry>)
        ensures
            log_views(r@) == self.history(),
            r@.len() <= MAX_HISTORY,
            forall|i: int|
                0 <= i < r@.len() ==> (#[trigger] r@[i]).confidence.wf(Format::Single),
    {
        proof {
            use_type_invariant(self);
        }
        let mut r: Vec<DetectionLogEntry> = Vec::new();
        let mut i: usize = 0;
        while i < self.records.len()
            invariant
                i <= self.records@.len(),
                r@.len() == i,
                log_views(r@) == self.history().take(i as int),
                forall|j: int|
                    0 <= j < self.records@.len() ==> (
                    #[trigger] self.records@[j]).confidence.wf(Format::Single),
                forall|j: int| 0 <= j < i ==> (#[trigger] r@[j]).confidence.wf(Format::Single),
            decreases self.records@.len() - i,
        {
            let ghost before = log_views(r@);
            r.push(self.records[i].clone());
            assert(log_views(r@) =~= before.push(self.records@[i as int]@));
            assert(self.history().take(i + 1) =~= self.history().take(i as int).push(
                self.records@[i as int]@,
            ));
            i += 1;
        }
        assert(self.history().take(i as int) =~= self.history());
        r
    }
}

/// Detects challenges and learns from what came of them.
#[derive(Debug)]
pub struct ChallengeDetector {
    known_patterns: Vec<ChallengePattern>,
    adaptive_patterns: TextMap<Vec<ChallengePattern>>,
    stats: TextMap<PatternStats>,
    history: DetectionLog,
}

/// What a detector holds: the built-in patterns, those discovered for each
/// domain, the record of each pattern by its identifier, and the history.
#[verifier::ext_equal]
pub struct DetectorView {
    pub known: Seq<PatternView>,
    pub adaptive: Map<Seq<char>, Seq<PatternView>>,
    pub stats: Map<Seq<char>, PatternStats>,
    pub history: Seq<LogView>,
}

impl View for ChallengeDetector {
    type V = DetectorView;

    closed spec fn view(&self) -> DetectorView {
        DetectorView {
            known: pattern_views(self.known_patterns@),
            adaptive: self.adaptive_patterns@.map_values(
                |list: Vec<ChallengePattern>| pattern_views(list@),
            ),
            stats: self.stats@,
            history: self.history.history(),
        }
    }
}

/// The value of a map under a key.
pub open spec fn at<T>(map: Map<Seq<char>, T>, key: Seq<char>) -> Option<T> {
    if map.contains_key(key) {
        Some(map[key])
    } else {
        None
    }
}

/// Patterns as they count when they were discovered for a domain.
pub open spec fn as_adaptive(list: Seq<PatternView>) -> Seq<PatternView> {
    list.map_values(|p: PatternView| PatternView { adaptive: true, ..p })
}

impl DetectorView {
    /// The patterns discovered for a domain.
    pub open spec fn discovered(self, domain: Option<Seq<char>>) -> Seq<PatternView> {
        match domain {
            Some(d) => if self.adaptive.contains_key(d) {
                self.adaptive[d]
            } else {
                Seq::empty()
            },
            None => Seq::empty(),
        }
    }

    /// The patterns that a response is held against, in order: the built-in
    /// ones, then those discovered for its domain.
    pub open spec fn candidates(self, response: ChallengeResponse) -> Seq<PatternView> {
        self.known + as_adaptive(self.discovered(response.domain()))
    }

    /// The score of a pattern on a body.
    pub open spec fn score(self, p: PatternView, body: Seq<char>) -> Option<Float> {
        p.score(p.found(body).len(), at(self.stats, p.id))
    }

    /// Whether the pattern at `i` leads: it has a score, above those of all
    /// patterns before it and not below that of any after it.
    pub open spec fn leads(self, patterns: Seq<PatternView>, body: Seq<char>, i: int) -> bool {
        &&& 0 <= i < patterns.len()
        &&& self.score(patterns[i], body) is Some
        &&& forall|j: int|
            0 <= j < patterns.len() && j != i ==> self.trails(
                #[trigger] patterns[j],
                patterns[i],
                body,
                j < i,
            )
    }

    /// Whether the score of a pattern, if it has one, is below (`strictly`) or
    /// not above that of another.
    pub open spec fn trails(
        self,
        p: PatternView,
        leader: PatternView,
        body: Seq<char>,
        strictly: bool,
    ) -> bool {
        match (self.score(p, body), self.score(leader, body)) {
            (Some(c), Some(best)) => if strictly {
                c.below(best)
            } else {
                !best.below(c)
            },
            (Some(_), None) => false,
            (None, _) => true,
        }
    }

    /// The detection of a pattern on a response.
    pub open spec fn detection(self, p: PatternView, response: ChallengeResponse) -> DetectionView {
        DetectionView {
            pattern_id: p.id,
            pattern_name: p.name,
            challenge_type: p.challenge_type,
            response_strategy: p.response_strategy,
            confidence: self.score(p, response.body@)->0,
            is_adaptive: p.adaptive,
            status_code: response.status,
            url: response.url.text(),
            matched_indicators: p.found(response.body@),
        }
    }

    /// Whether `d` is the detection of the leading one of some patterns,
    /// nothing where none has a score.
    pub open spec fn picks(
        self,
        patterns: Seq<PatternView>,
        response: ChallengeResponse,
        d: Option<DetectionView>,
    ) -> bool {
        match d {
            Some(v) => exists|i: int| #[trigger]
                self.leads(patterns, response.body@, i) && v == self.detection(
                    patterns[i],
                    response,
                ),
            None => forall|i: int|
                0 <= i < patterns.len() ==> self.score(#[trigger] patterns[i], response.body@) is None,
        }
    }
}

/// A detection by its view.
pub open spec fn viewed(d: Option<ChallengeDetection>) -> Option<DetectionView> {
    match d {
        Some(detection) => Some(detection@),
        None => None,
    }
}

impl Default for ChallengeDetector {
    fn default() -> (r: Self)
        ensures
            r@ == (DetectorView {
                known: known_patterns(),
                adaptive: Map::empty(),
                stats: Map::empty(),
                history: Seq::empty(),
            }),
    {
        ChallengeDetector::new()
    }
}

impl ChallengeDetector {
    /// A detector with the built-in patterns and nothing learnt.
    pub fn new() -> (r: ChallengeDetector)
        ensures
            r@ == (DetectorView {
                known: known_patterns(),
                adaptive: Map::empty(),
                stats: Map::empty(),
                history: Seq::empty(),
            }),
    {
        let r = ChallengeDetector {
            known_patterns: known_pattern_list(),
            adaptive_patterns: TextMap::new(),
            stats: TextMap::new(),
            history: DetectionLog::new(),
        };
        assert(r@.adaptive =~= Map::empty());
        r
    }

    /// Whether a response is a challenge.
    pub fn is_cloudflare_challenge(&self, response: &ChallengeResponse) -> (r: bool)
        ensures
            r == response.is_challenge(),
    {
        if !is_cloudflare_response(response) {
            return false;
        }
        response.status == 403 || response.status == 429 || response.status == 503 || header_says(
            &response.headers,
            "cf-mitigated",
            "challenge",
        )
    }

    /// The score of a pattern on a response, with the indicators found.
    pub fn evaluate_pattern(&self, pattern: &ChallengePattern, response: &ChallengeResponse) -> (r:
        Option<(Float, Vec<String>)>)
        ensures
            match r {
                Some((confidence, matched)) => {
                    &&& self@.score(pattern@, response.body@) == Some(confidence)
                    &&& text::views(matched@) == pattern@.found(response.body@)
                    &&& confidence.wf(Format::Single)
                },
                None => self@.score(pattern@, response.body@) is None,
            },
    {
        let matched: Vec<String> = pattern.matched(response.body.as_str());
        proof {
            assert(text::views(matched@).len() == matched@.len());
        }
        match pattern.scored(matched.len(), self.stats.get(pattern.id.as_str())) {
            Some(confidence) => Some((confidence, matched)),
            None => None,
        }
    }

    /// Goes on from the detection of some patterns to that of more.
    fn survey(
        &self,
        patterns: &Vec<ChallengePattern>,
        adaptive: bool,
        response: &ChallengeResponse,
        best: Option<ChallengeDetection>,
        Ghost(before): Ghost<Seq<PatternView>>,
    ) -> (r: Option<ChallengeDetection>)
        requires
            self@.picks(before, *response, viewed(best)),
            scores_wf(self@, before, response.body@),
        ensures
            ({
                let more = pattern_views(patterns@);
                let all = before + (if adaptive { as_adaptive(more) } else { more });
                &&& self@.picks(all, *response, viewed(r))
                &&& scores_wf(self@, all, response.body@)
            }),
    {
        let mut best: Option<ChallengeDetection> = best;
        let mut i: usize = 0;
        let ghost body = response.body@;
        let ghost more = pattern_views(patterns@);
        let ghost added = if adaptive { as_adaptive(more) } else { more };
        assert(before + added.take(0) =~= before);
        while i < patterns.len()
            invariant
                i <= patterns@.len(),
                body == response.body@,
                more == pattern_views(patterns@),
                added == (if adaptive { as_adaptive(more) } else { more }),
                self@.picks(before + added.take(i as int), *response, viewed(best)),
                scores_wf(self@, before + added.take(i as int), body),
            decreases patterns@.len() - i,
        {
            let pattern: &ChallengePattern = &patterns[i];
            let ghost seen = before + added.take(i as int);
            let ghost next = before + added.take(i + 1);
            let ghost p = added[i as int];
            assert(next =~= seen.push(p));
            assert(self@.score(p, body) == self@.score(pattern@, body));
            assert(p.found(body) == pattern@.found(body));
            let evaluated = self.evaluate_pattern(pattern, response);
            proof {
                if self@.score(p, body) is Some {
                    assert(self@.score(p, body)->0.wf(Format::Single));
                }
                lemma_scores_wf_push(self@, seen, p, body);
            }
            if let Some((confidence, matched)) = evaluated {
                let ahead: bool = match &best {
                    Some(current) => {
                        proof {
                            let k = choose|k: int| #[trigger]
                                self@.leads(seen, body, k) && current@ == self@.detection(
                                    seen[k],
                                    *response,
                                );
                            assert(self@.score(seen[k], body) == Some(current.confidence));
                        }
                        current.confidence.less_than(Format::Single, confidence)
                    },
                    None => true,
                };
                if ahead {
                    proof {
                        lemma_overtaken(self@, seen, p, *response, viewed(best));
                    }
                    let detection = ChallengeDetection {
                        pattern_id: pattern.id.clone(),
                        pattern_name: pattern.name.clone(),
                        challenge_type: pattern.challenge_type,
                        response_strategy: pattern.response_strategy,
                        confidence,
                        is_adaptive: adaptive || pattern.adaptive,
                        status_code: response.status,
                        url: response.url.as_str().to_owned(),
                        matched_indicators: matched,
                    };
                    assert(detection@ =~= self@.detection(p, *response));
                    assert(next[seen.len() as int] == p);
                    best = Some(detection);
                } else {
                    proof {
                        lemma_kept(self@, seen, p, *response, viewed(best));
                    }
                }
            } else {
                proof {
                    lemma_kept(self@, seen, p, *response, viewed(best));
                }
            }
            i += 1;
        }
        assert(added.take(i as int) =~= added);
        best
    }

    /// Detects a challenge in a response and records it.
    pub fn detect(&mut self, response: &ChallengeResponse) -> (r: Option<ChallengeDetection>)
        ensures
            final(self)@.known == old(self)@.known,
            final(self)@.adaptive == old(self)@.adaptive,
            final(self)@.stats == old(self)@.stats,
            if response.is_challenge() {
                old(self)@.picks(old(self)@.candidates(*response), *response, viewed(r))
            } else {
                r is None
            },
            r matches Some(detection) ==> detection.confidence.wf(Format::Single),
            match r {
                Some(detection) => exists|now: SystemTime|
                    final(self)@.history == #[trigger] logged(
                        old(self)@.history,
                        LogView {
                            timestamp: now,
                            pattern_id: detection.pattern_id@,
                            confidence: detection.confidence,
                            url: detection.url@,
                        },
                    ),
                None => final(self)@.history == old(self)@.history,
            },
    {
        if !self.is_cloudflare_challenge(response) {
            return None;
        }
        let ghost none = Seq::<PatternView>::empty();
        let mut best: Option<ChallengeDetection> = self.survey(
            &self.known_patterns,
            false,
            response,
            None,
            Ghost(none),
        );
        assert(none + pattern_views(self.known_patterns@) =~= self@.known);
        let domain: Option<String> = response_domain(response);
        let mut found: bool = false;
        if let Some(name) = &domain {
            if let Some(patterns) = self.adaptive_patterns.get(name.as_str()) {
                found = true;
                assert(self@.discovered(response.domain()) == pattern_views(patterns@));
                best = self.survey(patterns, true, response, best, Ghost(self@.known));
            }
        }
        assert(!found ==> self@.candidates(*response) =~= self@.known) by {
            if !found {
                assert(self@.discovered(response.domain()) =~= Seq::empty());
            }
        }
        assert(self@.picks(self@.candidates(*response), *response, viewed(best)));
        assert(scores_wf(self@, self@.candidates(*response), response.body@));
        if let Some(detection) = &best {
            proof {
                let all = self@.candidates(*response);
                let i = choose|i: int| #[trigger]
                    self@.leads(all, response.body@, i) && detection@ == self@.detection(
                        all[i],
                        *response,
                    );
                assert(self@.score(all[i], response.body@) == Some(detection.confidence));
            }
            self.record_detection(detection, SystemTime::now());
        }
        best
    }

    /// Records a detection made at a time.
    pub fn record_detection(&mut self, detection: &ChallengeDetection, timestamp: SystemTime)
        requires
            detection.confidence.wf(Format::Single),
        ensures
            final(self)@ == (DetectorView {
                history: logged(
                    old(self)@.history,
                    LogView {
                        timestamp,
                        pattern_id: detection.pattern_id@,
                        confidence: detection.confidence,
                        url: detection.url@,
                    },
                ),
                ..old(self)@
            }),
            final(self)@.history.len() <= MAX_HISTORY,
    {
        let entry = DetectionLogEntry {
            timestamp,
            pattern_id: detection.pattern_id.clone(),
            confidence: detection.confidence,
            url: detection.url.clone(),
        };
        self.history.record(entry);
    }

    /// The past detections, oldest first.
    pub fn detection_history(&self) -> (r: Vec<DetectionLogEntry>)
        ensures
            log_views(r@) == self@.history,
            r@.len() <= MAX_HISTORY,
            forall|i: int|
                0 <= i < r@.len() ==> (#[trigger] r@[i]).confidence.wf(Format::Single),
    {
        self.history.entries()
    }

    /// Records what came of acting on a pattern, for its future scores.
    pub fn learn_from_outcome(&mut self, pattern_id: &str, success: bool)
        ensures
            final(self)@ == old(self)@.with_outcome(pattern_id@, success),
    {
        let mut entry: PatternStats = match self.stats.get(pattern_id) {
            Some(stats) => *stats,
            None => PatternStats { attempts: 0, successes: 0 },
        };
        entry.record(success);
        self.stats.insert(pattern_id.to_owned(), entry);
    }

    /// Registers a pattern discovered for a domain.
    pub fn add_adaptive_pattern(
        &mut self,
        domain: &str,
        pattern_name: &str,
        raw_patterns: Vec<&str>,
        challenge_type: ChallengeType,
        response_strategy: ResponseStrategy,
    )
        requires
            all_valid(slices(raw_patterns@)),
        ensures
            final(self)@ == old(self)@.with_adaptive(
                domain@,
                pattern_name@,
                slices(raw_patterns@),
                challenge_type,
                response_strategy,
            ),
    {
        let mut id: String = "adaptive_".to_owned();
        id.append(domain);
        id.append("_");
        id.append(text::decimal_of(raw_patterns.len()).as_str());
        let ghost raw = slices(raw_patterns@);
        let pattern: ChallengePattern = ChallengePattern::new(
            id.as_str(),
            pattern_name,
            challenge_type,
            response_strategy,
            from_hundredths(80),
            raw_patterns,
        ).into_adaptive();
        let key: String = domain.to_lowercase();
        let ghost view = pattern@;
        let mut list: Vec<ChallengePattern> = match self.adaptive_patterns.remove(key.as_str()) {
            Some(list) => list,
            None => Vec::new(),
        };
        let ghost earlier = pattern_views(list@);
        assert(earlier =~= old(self)@.discovered(Some(key@)));
        list.push(pattern);
        assert(pattern_views(list@) =~= earlier.push(view));
        self.adaptive_patterns.insert(key, list);
        assert(self@.adaptive =~= old(self)@.with_adaptive(
            domain@,
            pattern_name@,
            raw,
            challenge_type,
            response_strategy,
        ).adaptive);
    }

    /// Registers a pattern discovered for a domain if all its indicators are
    /// valid, and says whether it did.
    pub fn try_add_adaptive_pattern(
        &mut self,
        domain: &str,
        pattern_name: &str,
        raw_patterns: Vec<&str>,
        challenge_type: ChallengeType,
        response_strategy: ResponseStrategy,
    ) -> (r: bool)
        ensures
            r == all_valid(slices(raw_patterns@)),
            r ==> final(self)@ == old(self)@.with_adaptive(
                domain@,
                pattern_name@,
                slices(raw_patterns@),
                challenge_type,
                response_strategy,
            ),
            !r ==> final(self)@ == old(self)@,
    {
        let mut i: usize = 0;
        while i < raw_patterns.len()
            invariant
                i <= raw_patterns@.len(),
                forall|j: int|
                    0 <= j < i ==> pattern_search::valid_indicator(
                        #[trigger] slices(raw_patterns@)[j],
                    ),
            decreases raw_patterns@.len() - i,
        {
            assert(slices(raw_patterns@)[i as int] == raw_patterns@[i as int]@);
            if !pattern_search::is_valid_indicator(raw_patterns[i]) {
                return false;
            }
            i += 1;
        }
        self.add_adaptive_pattern(
            domain,
            pattern_name,
            raw_patterns,
            challenge_type,
            response_strategy,
        );
        true
    }
}

/// The record of a pattern, an empty one where there is none.
pub open spec fn recalled(stats: Map<Seq<char>, PatternStats>, id: Seq<char>) -> PatternStats {
    if stats.contains_key(id) {
        stats[id]
    } else {
        PatternStats { attempts: 0, successes: 0 }
    }
}

/// Whether all of a list are valid indicators.
pub open spec fn all_valid(indicators: Seq<Seq<char>>) -> bool {
    forall|i: int|
        0 <= i < indicators.len() ==> pattern_search::valid_indicator(#[trigger] indicators[i])
}

impl DetectorView {
    /// The detector with one more outcome in the record of a pattern.
    pub open spec fn with_outcome(self, id: Seq<char>, success: bool) -> DetectorView {
        DetectorView {
            stats: self.stats.insert(id, recalled(self.stats, id).recorded(success)),
            ..self
        }
    }

    /// The detector with one more pattern discovered for a domain.
    pub open spec fn with_adaptive(
        self,
        domain: Seq<char>,
        name: Seq<char>,
        indicators: Seq<Seq<char>>,
        challenge_type: ChallengeType,
        response_strategy: ResponseStrategy,
    ) -> DetectorView {
        let pattern = PatternView {
            id: "adaptive_"@ + domain + "_"@ + text::decimal(indicators.len()),
            name,
            challenge_type,
            response_strategy,
            base_confidence: hundredths(80),
            indicators,
            adaptive: true,
        };
        DetectorView {
            adaptive: self.adaptive.insert(
                lowercase(domain),
                self.discovered(Some(lowercase(domain))).push(pattern),
            ),
            ..self
        }
    }
}

/// Whether the scores of some patterns are single-precision numbers.
spec fn scores_wf(d: DetectorView, patterns: Seq<PatternView>, body: Seq<char>) -> bool {
    forall|i: int|
        0 <= i < patterns.len() ==> (d.score(#[trigger] patterns[i], body) matches Some(c)
            ==> c.wf(Format::Single))
}

proof fn lemma_scores_wf_push(
    d: DetectorView,
    seen: Seq<PatternView>,
    p: PatternView,
    body: Seq<char>,
)
    requires
        scores_wf(d, seen, body),
        d.score(p, body) matches Some(c) ==> c.wf(Format::Single),
    ensures
        scores_wf(d, seen.push(p), body),
{
    let next = seen.push(p);
    assert forall|i: int|
        0 <= i < next.len() && d.score(#[trigger] next[i], body) is Some implies d.score(
        next[i],
        body,
    )->0.wf(Format::Single) by {
        if i < seen.len() {
            assert(next[i] == seen[i]);
        }
    }
}

/// A score is a number.
proof fn lemma_score_is_number(d: DetectorView, p: PatternView, body: Seq<char>)
    ensures
        d.score(p, body) matches Some(c) ==> !(c is NotANumber),
{
}

/// A pattern with a score above that of the leader, or with the first score,
/// leads.
proof fn lemma_overtaken(
    d: DetectorView,
    seen: Seq<PatternView>,
    p: PatternView,
    response: ChallengeResponse,
    best: Option<DetectionView>,
)
    requires
        d.picks(seen, response, best),
        scores_wf(d, seen.push(p), response.body@),
        d.score(p, response.body@) is Some,
        best matches Some(v) ==> v.confidence.below(d.score(p, response.body@)->0),
    ensures
        d.leads(seen.push(p), response.body@, seen.len() as int),
{
    let body = response.body@;
    let next = seen.push(p);
    let c = d.score(p, body)->0;
    let n = seen.len() as int;
    assert(next[n] == p);
    assert forall|j: int| 0 <= j < next.len() && j != n implies d.trails(
        #[trigger] next[j],
        next[n],
        body,
        j < n,
    ) by {
        assert(next[j] == seen[j]);
        if let Some(v) = best {
            let k = choose|k: int| #[trigger]
                d.leads(seen, body, k) && v == d.detection(seen[k], response);
            assert(next[k] == seen[k]);
            if d.score(seen[j], body) is Some {
                let s = d.score(seen[j], body)->0;
                lemma_score_is_number(d, seen[j], body);
                lemma_score_is_number(d, seen[k], body);
                lemma_score_is_number(d, p, body);
                crate::ieee::law_order(Format::Single, s, c);
                crate::ieee::law_order(Format::Single, v.confidence, c);
                crate::ieee::law_order(Format::Single, s, v.confidence);
                crate::ieee::law_order(Format::Single, v.confidence, s);
                if j != k {
                    assert(d.trails(seen[j], seen[k], body, j < k));
                }
            }
        }
    }
}

/// A pattern without a score above that of the leader changes nothing.
proof fn lemma_kept(
    d: DetectorView,
    seen: Seq<PatternView>,
    p: PatternView,
    response: ChallengeResponse,
    best: Option<DetectionView>,
)
    requires
        d.picks(seen, response, best),
        d.score(p, response.body@) matches Some(c) ==> (best matches Some(v)
            && !v.confidence.below(c)),
    ensures
        d.picks(seen.push(p), response, best),
{
    let body = response.body@;
    let next = seen.push(p);
    match best {
        Some(v) => {
            let k = choose|k: int| #[trigger]
                d.leads(seen, body, k) && v == d.detection(seen[k], response);
            assert(next[k] == seen[k]);
            assert forall|j: int| 0 <= j < next.len() && j != k implies d.trails(
                #[trigger] next[j],
                next[k],
                body,
                j < k,
            ) by {
                if j < seen.len() {
                    assert(next[j] == seen[j]);
                }
            }
            assert(d.leads(next, body, k));
        },
        None => {
            assert forall|j: int| 0 <= j < next.len() implies d.score(
                #[trigger] next[j],
                body,
            ) is None by {
                if j < seen.len() {
                    assert(next[j] == seen[j]);
                }
            }
        },
    }
}

} // verus!
