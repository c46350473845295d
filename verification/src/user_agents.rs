//! User-agent profiles.
//!
//! A dataset lists, for each kind of device, platform and browser, the
//! user-agent strings in use, and for each browser its request headers and
//! cipher suites. From it a profile is selected by device kind, platform and
//! browser, or built around a custom user agent.

use crate::random::random_choice;
use crate::text;
use crate::text_map;
use crate::text_map::TextMap;
use vstd::prelude::*;

verus! {

/// Request headers of one browser.
#[derive(Debug, Clone)]
pub struct HeaderProfile {
    pub user_agent: Option<String>,
    pub accept: String,
    pub accept_language: String,
    pub accept_encoding: String,
}

/// The kinds of device.
#[derive(Debug, Clone, Copy, PartialEq, Eq, Hash, Structural)]
pub enum DeviceKind {
    Desktop,
    Mobile,
}

/// The dataset: headers and cipher suites by browser, and user agents by
/// device kind, platform and browser.
#[derive(Debug)]
pub struct UserAgentData {
    pub headers: TextMap<HeaderProfile>,
    pub cipher_suites: TextMap<Vec<String>>,
    pub desktop: Option<TextMap<TextMap<Vec<String>>>>,
    pub mobile: Option<TextMap<TextMap<Vec<String>>>>,
}

/// Options to filter and select a profile.
#[derive(Debug, Clone)]
pub struct UserAgentOptions {
    pub custom: Option<String>,
    pub platform: Option<String>,
    pub browser: Option<String>,
    pub desktop: bool,
    pub mobile: bool,
    pub allow_brotli: bool,
}

/// A selected profile.
#[derive(Debug, Clone)]
pub struct UserAgentProfile {
    pub headers: TextMap<String>,
    pub cipher_suites: Vec<String>,
}

/// What a profile holds.
pub struct ProfileView {
    pub headers: Map<Seq<char>, Seq<char>>,
    pub cipher_suites: Seq<Seq<char>>,
}

impl View for UserAgentProfile {
    type V = ProfileView;

    open spec fn view(&self) -> ProfileView {
        ProfileView {
            headers: self.headers.texts(),
            cipher_suites: text::views(self.cipher_suites@),
        }
    }
}

/// Why a profile could not be had. A `path` is in quoted form.
#[derive(Debug)]
pub enum UserAgentError {
    FileMissing { path: String },
    InvalidJson { path: String, source: String },
    InvalidEmbedded(String),
    Io { path: String, source: String },
    NoDataSources,
    InvalidOptions(String),
    ProfileNotFound,
    InitializationFailure(String),
}

impl Default for UserAgentOptions {
    fn default() -> (r: Self)
        ensures
            r.custom is None,
            r.platform is None,
            r.browser is None,
            r.desktop,
            r.mobile,
            !r.allow_brotli,
    {
        UserAgentOptions {
            custom: None,
            platform: None,
            browser: None,
            desktop: true,
            mobile: true,
            allow_brotli: false,
        }
    }
}

/// An encoding other than Brotli.
pub open spec fn is_kept(encoding: Seq<char>) -> bool {
    text::lower(encoding) != text::lower("br"@)
}

/// The encodings that an `Accept-Encoding` value lists.
pub open spec fn encodings(value: Seq<char>) -> Seq<Seq<char>> {
    text::split(value, ',').map_values(|piece: Seq<char>| text::trim(piece))
}

/// An `Accept-Encoding` value without Brotli.
pub open spec fn without_brotli(value: Seq<char>) -> Seq<char> {
    text::join(encodings(value).filter(|e: Seq<char>| is_kept(e)), ", "@)
}

/// Headers with Brotli taken out of the accepted encodings.
pub open spec fn headers_without_brotli(headers: Map<Seq<char>, Seq<char>>) -> Map<
    Seq<char>,
    Seq<char>,
> {
    if headers.contains_key("Accept-Encoding"@) {
        headers.insert("Accept-Encoding"@, without_brotli(headers["Accept-Encoding"@]))
    } else {
        headers
    }
}

impl HeaderProfile {
    /// The headers by name.
    pub open spec fn named(self) -> Map<Seq<char>, Seq<char>> {
        let unnamed = Map::<Seq<char>, Seq<char>>::empty();
        let agent = match self.user_agent {
            Some(ua) => unnamed.insert("User-Agent"@, ua@),
            None => unnamed,
        };
        agent.insert("Accept"@, self.accept@).insert(
            "Accept-Language"@,
            self.accept_language@,
        ).insert("Accept-Encoding"@, self.accept_encoding@)
    }
}

/// The headers of a browser profile by name.
pub fn header_profile_to_map(profile: &HeaderProfile) -> (r: TextMap<String>)
    ensures
        r.texts() == profile.named(),
{
    let mut map: TextMap<String> = TextMap::new();
    assert(map.texts() =~= Map::<Seq<char>, Seq<char>>::empty());
    if let Some(ua) = &profile.user_agent {
        put(&mut map, "User-Agent", ua.as_str());
    }
    put(&mut map, "Accept", profile.accept.as_str());
    put(&mut map, "Accept-Language", profile.accept_language.as_str());
    put(&mut map, "Accept-Encoding", profile.accept_encoding.as_str());
    map
}

fn put(map: &mut TextMap<String>, key: &str, value: &str)
    ensures
        final(map).texts() == old(map).texts().insert(key@, value@),
{
    map.insert(key.to_owned(), value.to_owned());
    assert(map.texts() =~= old(map).texts().insert(key@, value@));
}

/// Takes Brotli out of the accepted encodings.
pub fn strip_brotli(headers: &mut TextMap<String>)
    ensures
        final(headers).texts() == headers_without_brotli(old(headers).texts()),
{
    let filtered: String = match headers.get("Accept-Encoding") {
        Some(encoding) => strip_encoding(encoding.as_str()),
        None => {
            return;
        },
    };
    put(headers, "Accept-Encoding", filtered.as_str());
}

fn strip_encoding(value: &str) -> (r: String)
    ensures
        r@ == without_brotli(value@),
{
    let pieces: Vec<String> = text::pieces(value, ',');
    let mut kept: Vec<String> = Vec::new();
    let mut i: usize = 0;
    let ghost all = encodings(value@);
    let ghost pred = |e: Seq<char>| is_kept(e);
    assert(all.take(0).filter(pred) =~= text::views(kept@)) by {
        reveal(Seq::filter);
    }
    while i < pieces.len()
        invariant
            i <= pieces@.len(),
            text::views(pieces@) == text::split(value@, ','),
            all == encodings(value@),
            all.len() == pieces@.len(),
            pred == (|e: Seq<char>| is_kept(e)),
            text::views(kept@) == all.take(i as int).filter(pred),
        decreases pieces@.len() - i,
    {
        assert(text::views(pieces@)[i as int] == pieces@[i as int]@);
        let encoding: String = text::trimmed(pieces[i].as_str());
        assert(encoding@ == all[i as int]);
        assert(all.take(i + 1) =~= all.take(i as int).push(encoding@));
        proof {
            all.take(i as int).lemma_filter_push(encoding@, pred);
        }
        let ghost before = text::views(kept@);
        if !text::same_ignoring_case(encoding.as_str(), "br") {
            kept.push(encoding);
            assert(text::views(kept@) =~= before.push(all[i as int]));
        }
        i += 1;
    }
    assert(all.take(i as int) =~= all);
    text::joined(&kept, ", ")
}

/// The platforms that can be asked for.
pub open spec fn valid_platforms() -> Seq<Seq<char>> {
    seq!["linux"@, "windows"@, "darwin"@, "android"@, "ios"@]
}

fn valid_platform_list() -> (r: Vec<String>)
    ensures
        text::views(r@) == valid_platforms(),
{
    let r: Vec<String> = vec![
        "linux".to_owned(),
        "windows".to_owned(),
        "darwin".to_owned(),
        "android".to_owned(),
        "ios".to_owned(),
    ];
    assert(text::views(r@) =~= valid_platforms());
    r
}

impl UserAgentOptions {
    /// The kinds of device that the options permit.
    pub open spec fn kinds(self) -> Seq<DeviceKind> {
        let none = Seq::<DeviceKind>::empty();
        let desktop = if self.desktop { none.push(DeviceKind::Desktop) } else { none };
        if self.mobile { desktop.push(DeviceKind::Mobile) } else { desktop }
    }

    /// The platform asked for.
    pub open spec fn wanted(self) -> Option<Seq<char>> {
        match self.platform {
            Some(platform) => Some(platform@),
            None => None,
        }
    }
}

/// The kinds of device that the options permit.
pub fn permitted_device_kinds(opts: &UserAgentOptions) -> (r: Vec<DeviceKind>)
    ensures
        r@ == opts.kinds(),
{
    let mut kinds: Vec<DeviceKind> = Vec::new();
    if opts.desktop {
        kinds.push(DeviceKind::Desktop);
    }
    if opts.mobile {
        kinds.push(DeviceKind::Mobile);
    }
    kinds
}

/// The headers that go with a custom user agent of no known browser.
pub open spec fn fallback_headers(custom: Seq<char>) -> Map<Seq<char>, Seq<char>> {
    Map::<Seq<char>, Seq<char>>::empty().insert("User-Agent"@, custom).insert(
        "Accept"@,
        "text/html,application/xhtml+xml,application/xml;q=0.9,image/webp,image/apng,*/*;q=0.8"@,
    ).insert("Accept-Language"@, "en-US,en;q=0.9"@).insert("Accept-Encoding"@, "gzip, deflate"@)
}

/// The headers that go with a custom user agent of no known browser.
pub fn default_headers(custom: &str) -> (r: TextMap<String>)
    ensures
        r.texts() == fallback_headers(custom@),
{
    let mut map: TextMap<String> = TextMap::new();
    assert(map.texts() =~= Map::<Seq<char>, Seq<char>>::empty());
    put(&mut map, "User-Agent", custom);
    put(
        &mut map,
        "Accept",
        "text/html,application/xhtml+xml,application/xml;q=0.9,image/webp,image/apng,*/*;q=0.8",
    );
    put(&mut map, "Accept-Language", "en-US,en;q=0.9");
    put(&mut map, "Accept-Encoding", "gzip, deflate");
    map
}

/// The cipher suites of a custom user agent of no known browser.
pub open spec fn fallback_cipher_suites() -> Seq<Seq<char>> {
    seq![
        "TLS_AES_128_GCM_SHA256"@,
        "TLS_AES_256_GCM_SHA384"@,
        "ECDHE-ECDSA-AES128-GCM-SHA256"@,
        "ECDHE-RSA-AES128-GCM-SHA256"@,
        "ECDHE-ECDSA-AES256-GCM-SHA384"@,
        "ECDHE-RSA-AES256-GCM-SHA384"@,
    ]
}

/// The cipher suites of a custom user agent of no known browser.
pub fn default_cipher_suites() -> (r: Vec<String>)
    ensures
        text::views(r@) == fallback_cipher_suites(),
{
    let r: Vec<String> = vec![
        "TLS_AES_128_GCM_SHA256".to_owned(),
        "TLS_AES_256_GCM_SHA384".to_owned(),
        "ECDHE-ECDSA-AES128-GCM-SHA256".to_owned(),
        "ECDHE-RSA-AES128-GCM-SHA256".to_owned(),
        "ECDHE-ECDSA-AES256-GCM-SHA384".to_owned(),
        "ECDHE-RSA-AES256-GCM-SHA384".to_owned(),
    ];
    assert(text::views(r@) =~= fallback_cipher_suites());
    r
}

impl UserAgentData {
    /// The platforms listed for a kind of device.
    pub open spec fn device(self, kind: DeviceKind) -> Option<TextMap<TextMap<Vec<String>>>> {
        match kind {
            DeviceKind::Desktop => self.desktop,
            DeviceKind::Mobile => self.mobile,
        }
    }

    /// The browsers listed for a kind of device on a platform.
    pub open spec fn browsers(self, kind: DeviceKind, platform: Seq<char>) -> Map<
        Seq<char>,
        Vec<String>,
    > {
        match self.device(kind) {
            Some(platforms) => if platforms@.contains_key(platform) {
                platforms@[platform]@
            } else {
                Map::empty()
            },
            None => Map::empty(),
        }
    }

    /// The user agents listed for a kind of device, a platform and a browser.
    pub open spec fn listed(
        self,
        kind: DeviceKind,
        platform: Seq<char>,
        browser: Seq<char>,
    ) -> Seq<String> {
        if self.browsers(kind, platform).contains_key(browser) {
            self.browsers(kind, platform)[browser]@
        } else {
            Seq::empty()
        }
    }

    /// The user agents that several kinds of device have for a platform and a
    /// browser, one kind after the other.
    pub open spec fn offered(
        self,
        kinds: Seq<DeviceKind>,
        platform: Seq<char>,
        browser: Seq<char>,
    ) -> Seq<String>
        decreases kinds.len(),
    {
        if kinds.len() == 0 {
            Seq::empty()
        } else {
            self.offered(kinds.drop_last(), platform, browser) + self.listed(
                kinds.last(),
                platform,
                browser,
            )
        }
    }

    /// Whether one of several kinds of device has a user agent for a platform.
    pub open spec fn available(self, kinds: Seq<DeviceKind>, platform: Seq<char>) -> bool {
        exists|browser: Seq<char>| #[trigger] self.offered(kinds, platform, browser).len() > 0
    }

    /// Whether a browser with known headers has a user agent that holds
    /// `custom`.
    pub open spec fn knows(self, custom: Seq<char>, browser: Seq<char>) -> bool {
        &&& self.headers@.contains_key(browser)
        &&& exists|kind: DeviceKind, platform: Seq<char>, i: int|
            0 <= i < self.listed(kind, platform, browser).len() && text::occurs(
                custom,
                #[trigger] self.listed(kind, platform, browser)[i]@,
            )
    }

    /// The cipher suites of a browser, `otherwise` where none are listed.
    pub open spec fn suites(self, browser: Seq<char>, otherwise: Seq<Seq<char>>) -> Seq<Seq<char>> {
        if self.cipher_suites@.contains_key(browser) {
            text::views(self.cipher_suites@[browser]@)
        } else {
            otherwise
        }
    }

    fn device_map(&self, kind: DeviceKind) -> (r: Option<&TextMap<TextMap<Vec<String>>>>)
        ensures
            match r {
                Some(m) => self.device(kind) == Some(*m),
                None => self.device(kind) is None,
            },
    {
        match kind {
            DeviceKind::Desktop => self.desktop.as_ref(),
            DeviceKind::Mobile => self.mobile.as_ref(),
        }
    }

    fn browser_map(&self, kind: DeviceKind, platform: &str) -> (r: Option<&TextMap<Vec<String>>>)
        ensures
            match r {
                Some(m) => self.browsers(kind, platform@) == m@,
                None => self.browsers(kind, platform@) == Map::<Seq<char>, Vec<String>>::empty(),
            },
    {
        match self.device_map(kind) {
            Some(platforms) => platforms.get(platform),
            None => None,
        }
    }
}

/// The error for a platform that is not among the valid ones.
pub open spec fn platform_message(platform: Seq<char>) -> Seq<char> {
    "Invalid platform '"@ + platform + "'; valid: "@ + text::join(valid_platforms(), ", "@)
}

/// The error for a browser that a platform does not have.
pub open spec fn browser_message(browser: Seq<char>, platform: Seq<char>) -> Seq<char> {
    "Browser '"@ + browser + "' not available for platform '"@ + platform + "'"@
}

impl UserAgentError {
    /// Whether the error is the refusal of the options with this message.
    pub open spec fn refuses(self, message: Seq<char>) -> bool {
        self matches UserAgentError::InvalidOptions(m) && m@ == message
    }
}

impl UserAgentData {
    /// Whether a platform may be used: it is valid, the one asked for if any
    /// is, and has a user agent.
    pub open spec fn usable(
        self,
        kinds: Seq<DeviceKind>,
        wanted: Option<Seq<char>>,
        platform: Seq<char>,
    ) -> bool {
        &&& wanted matches Some(w) ==> w == platform
        &&& valid_platforms().contains(platform)
        &&& self.available(kinds, platform)
    }

    /// The profile of a browser with a given user agent.
    pub open spec fn assembled(
        self,
        browser: Seq<char>,
        user_agent: Seq<char>,
        allow_brotli: bool,
    ) -> ProfileView {
        let named = self.headers@[browser].named().insert("User-Agent"@, user_agent);
        ProfileView {
            headers: if allow_brotli { named } else { headers_without_brotli(named) },
            cipher_suites: self.suites(browser, Seq::empty()),
        }
    }

    /// Whether `r` is the outcome for a browser and a user agent.
    pub open spec fn completes(
        self,
        browser: Seq<char>,
        user_agent: Seq<char>,
        allow_brotli: bool,
        r: Result<UserAgentProfile, UserAgentError>,
    ) -> bool {
        if self.headers@.contains_key(browser) {
            r matches Ok(profile) && profile@ == self.assembled(browser, user_agent, allow_brotli)
        } else {
            r matches Err(UserAgentError::ProfileNotFound)
        }
    }

    /// The profile of a custom user agent that a browser has.
    pub open spec fn recognised(self, custom: Seq<char>, browser: Seq<char>) -> ProfileView {
        ProfileView {
            headers: self.headers@[browser].named().insert("User-Agent"@, custom),
            cipher_suites: self.suites(browser, fallback_cipher_suites()),
        }
    }

    /// Whether a browser has known headers and one of some user agents that
    /// holds `custom`.
    pub open spec fn fits(self, browser: Seq<char>, agents: Seq<String>, custom: Seq<char>) -> bool {
        &&& self.headers@.contains_key(browser)
        &&& exists|i: int| 0 <= i < agents.len() && text::occurs(custom, #[trigger] agents[i]@)
    }

    /// The first browser of a platform that fits, in the order in which they are
    /// kept, from one of them on.
    pub open spec fn first_browser(
        self,
        browsers: TextMap<Vec<String>>,
        custom: Seq<char>,
        from: nat,
    ) -> Option<Seq<char>>
        decreases browsers.keys().len() - from,
    {
        if from >= browsers.keys().len() {
            None
        } else if self.fits(
            browsers.keys()[from as int],
            browsers@[browsers.keys()[from as int]]@,
            custom,
        ) {
            Some(browsers.keys()[from as int])
        } else {
            self.first_browser(browsers, custom, from + 1)
        }
    }

    /// The first browser that fits on any platform, in the order in which they
    /// are kept, from one of them on.
    pub open spec fn first_platform(
        self,
        platforms: TextMap<TextMap<Vec<String>>>,
        custom: Seq<char>,
        from: nat,
    ) -> Option<Seq<char>>
        decreases platforms.keys().len() - from,
    {
        if from >= platforms.keys().len() {
            None
        } else {
            match self.first_browser(platforms@[platforms.keys()[from as int]], custom, 0) {
                Some(browser) => Some(browser),
                None => self.first_platform(platforms, custom, from + 1),
            }
        }
    }

    /// The first browser of a kind of device that fits.
    pub open spec fn first_of_kind(self, kind: DeviceKind, custom: Seq<char>) -> Option<Seq<char>> {
        match self.device(kind) {
            Some(platforms) => self.first_platform(platforms, custom, 0),
            None => None,
        }
    }

    /// The browser that a custom user agent is taken for: the first that fits,
    /// desktop before mobile.
    pub open spec fn recognises(self, custom: Seq<char>) -> Option<Seq<char>> {
        match self.first_of_kind(DeviceKind::Desktop, custom) {
            Some(browser) => Some(browser),
            None => self.first_of_kind(DeviceKind::Mobile, custom),
        }
    }

    /// The profile for a custom user agent: that of the browser it is taken for,
    /// or the fallback where there is none.
    pub open spec fn customised(self, custom: Seq<char>) -> ProfileView {
        match self.recognises(custom) {
            Some(browser) => self.recognised(custom, browser),
            None => ProfileView {
                headers: fallback_headers(custom),
                cipher_suites: fallback_cipher_suites(),
            },
        }
    }

    /// Whether `r` is an outcome for a browser on a platform, under one of its
    /// user agents.
    pub open spec fn outfits(
        self,
        opts: UserAgentOptions,
        platform: Seq<char>,
        browser: Seq<char>,
        r: Result<UserAgentProfile, UserAgentError>,
    ) -> bool {
        exists|i: int|
            0 <= i < self.offered(opts.kinds(), platform, browser).len() && #[trigger] self.completes(
                browser,
                self.offered(opts.kinds(), platform, browser)[i]@,
                opts.allow_brotli,
                r,
            )
    }

    /// Whether `r` is an outcome on a platform: for the browser asked for, or
    /// for some browser where none is.
    pub open spec fn equips(
        self,
        opts: UserAgentOptions,
        platform: Seq<char>,
        r: Result<UserAgentProfile, UserAgentError>,
    ) -> bool {
        match opts.browser {
            Some(browser) => if self.offered(opts.kinds(), platform, browser@).len() == 0 {
                r matches Err(e) && e.refuses(browser_message(browser@, platform))
            } else {
                self.outfits(opts, platform, browser@, r)
            },
            None => exists|browser: Seq<char>| #[trigger] self.outfits(opts, platform, browser, r),
        }
    }

    /// Whether `r` is an outcome of a selection under `opts`.
    pub open spec fn selects(
        self,
        opts: UserAgentOptions,
        r: Result<UserAgentProfile, UserAgentError>,
    ) -> bool {
        if !opts.desktop && !opts.mobile {
            r matches Err(e) && e.refuses("Desktop and mobile cannot both be disabled"@)
        } else if let Some(custom) = opts.custom {
            r matches Ok(profile) && profile@ == self.customised(custom@)
        } else if opts.wanted() matches Some(w) && !valid_platforms().contains(w) {
            r matches Err(e) && e.refuses(platform_message(opts.wanted()->0))
        } else if forall|platform: Seq<char>| !#[trigger] self.usable(opts.kinds(), opts.wanted(), platform) {
            r matches Err(UserAgentError::ProfileNotFound)
        } else {
            exists|platform: Seq<char>| #[trigger]
                self.usable(opts.kinds(), opts.wanted(), platform) && self.equips(opts, platform, r)
        }
    }
}

fn copy_texts(list: &Vec<String>) -> (r: Vec<String>)
    ensures
        r@ == list@,
{
    let mut r: Vec<String> = Vec::new();
    append_texts(&mut r, list);
    assert(r@ =~= list@);
    r
}

fn append_texts(target: &mut Vec<String>, list: &Vec<String>)
    ensures
        final(target)@ == old(target)@ + list@,
{
    let mut i: usize = 0;
    while i < list.len()
        invariant
            i <= list@.len(),
            target@ == old(target)@ + list@.take(i as int),
        decreases list@.len() - i,
    {
        target.push(list[i].clone());
        assert(list@.take(i + 1) =~= list@.take(i as int).push(list@[i as int]));
        i += 1;
    }
    assert(list@.take(i as int) =~= list@);
}

/// Provides user-agent profiles from a dataset.
#[derive(Debug)]
pub struct UserAgentManager {
    pub data: UserAgentData,
}

impl UserAgentManager {
    /// Whether one of several kinds of device has a user agent for a platform.
    pub fn platform_available(&self, permitted_kinds: &Vec<DeviceKind>, platform: &str) -> (r: bool)
        ensures
            r == self.data.available(permitted_kinds@, platform@),
    {
        let mut k: usize = 0;
        while k < permitted_kinds.len()
            invariant
                k <= permitted_kinds@.len(),
                !self.data.available(permitted_kinds@.take(k as int), platform@),
            decreases permitted_kinds@.len() - k,
        {
            let kind: DeviceKind = permitted_kinds[k];
            let ghost seen = permitted_kinds@.take(k as int);
            let ghost next = permitted_kinds@.take(k + 1);
            assert(next.drop_last() =~= seen);
            if self.lists_any(kind, platform) {
                proof {
                    let browser = choose|b: Seq<char>| #[trigger]
                        self.data.listed(kind, platform@, b).len() > 0;
                    assert(self.data.offered(next, platform@, browser).len() > 0);
                    lemma_offered_grows(self.data, permitted_kinds@, k + 1, platform@, browser);
                }
                return true;
            }
            assert forall|b: Seq<char>| #[trigger]
                self.data.offered(next, platform@, b).len() == 0 by {
                assert(self.data.offered(seen, platform@, b).len() == 0);
                assert(self.data.listed(kind, platform@, b).len() == 0);
            }
            k += 1;
        }
        assert(permitted_kinds@.take(k as int) =~= permitted_kinds@);
        false
    }

    fn lists_any(&self, kind: DeviceKind, platform: &str) -> (r: bool)
        ensures
            r == (exists|b: Seq<char>| #[trigger] self.data.listed(kind, platform@, b).len() > 0),
    {
        let browsers: &TextMap<Vec<String>> = match self.data.browser_map(kind, platform) {
            Some(m) => m,
            None => {
                return false;
            },
        };
        let mut i: usize = 0;
        while i < browsers.len()
            invariant
                i <= browsers.keys().len(),
                self.data.browsers(kind, platform@) == browsers@,
                forall|j: int|
                    0 <= j < i ==> (#[trigger] browsers@[browsers.keys()[j]])@.len() == 0,
            decreases browsers.keys().len() - i,
        {
            if browsers.value_at(i).len() > 0 {
                assert(browsers.keys().contains(browsers.keys()[i as int]));
                proof {
                    text_map::law_keys(browsers);
                }
                assert(self.data.listed(kind, platform@, browsers.keys()[i as int]).len() > 0);
                return true;
            }
            i += 1;
        }
        proof {
            text_map::law_keys(browsers);
            assert forall|b: Seq<char>| #[trigger] self.data.listed(kind, platform@, b).len() == 0 by {
                if browsers@.contains_key(b) {
                    assert(browsers.keys().contains(b));
                    let j = browsers.keys().index_of(b);
                    assert(browsers@[browsers.keys()[j]]@.len() == 0);
                }
            }
        }
        false
    }

    /// The user agents of a platform by browser.
    pub fn collect_profiles(&self, permitted_kinds: &Vec<DeviceKind>, platform: &str) -> (r: TextMap<
        Vec<String>,
    >)
        ensures
            forall|browser: Seq<char>| #[trigger]
                r@.contains_key(browser) <==> self.data.offered(
                    permitted_kinds@,
                    platform@,
                    browser,
                ).len() > 0,
            forall|browser: Seq<char>|
                r@.contains_key(browser) ==> (#[trigger] r@[browser])@ == self.data.offered(
                    permitted_kinds@,
                    platform@,
                    browser,
                ),
    {
        let mut filtered: TextMap<Vec<String>> = TextMap::new();
        let mut k: usize = 0;
        while k < permitted_kinds.len()
            invariant
                k <= permitted_kinds@.len(),
                forall|b: Seq<char>| #[trigger]
                    held(filtered, b) == self.data.offered(
                        permitted_kinds@.take(k as int),
                        platform@,
                        b,
                    ),
                forall|b: Seq<char>| #[trigger]
                    filtered@.contains_key(b) ==> filtered@[b]@.len() > 0,
            decreases permitted_kinds@.len() - k,
        {
            let kind: DeviceKind = permitted_kinds[k];
            let ghost seen = permitted_kinds@.take(k as int);
            let ghost next = permitted_kinds@.take(k + 1);
            let ghost before = filtered;
            assert(next.drop_last() =~= seen);
            if let Some(browsers) = self.data.browser_map(kind, platform) {
                collect_browsers(&mut filtered, browsers);
            }
            assert forall|b: Seq<char>| #[trigger]
                held(filtered, b) == self.data.offered(next, platform@, b) by {
                assert(held(before, b) == self.data.offered(seen, platform@, b));
                assert(held(before, b) + self.data.listed(kind, platform@, b) =~= held(filtered, b));
            }
            k += 1;
        }
        assert(permitted_kinds@.take(k as int) =~= permitted_kinds@);
        assert forall|b: Seq<char>| #[trigger]
            filtered@.contains_key(b) <==> self.data.offered(permitted_kinds@, platform@, b).len()
                > 0 by {
            assert(held(filtered, b) == self.data.offered(permitted_kinds@, platform@, b));
        }
        assert forall|b: Seq<char>| filtered@.contains_key(b) implies (#[trigger] filtered@[b])@
            == self.data.offered(permitted_kinds@, platform@, b) by {
            assert(held(filtered, b) == self.data.offered(permitted_kinds@, platform@, b));
        }
        filtered
    }
}

impl UserAgentManager {
    /// The valid platforms that have a user agent.
    pub fn platform_candidates(&self, permitted_kinds: &Vec<DeviceKind>) -> (r: Vec<String>)
        ensures
            text::views(r@) == valid_platforms().filter(
                |platform: Seq<char>| self.data.available(permitted_kinds@, platform),
            ),
    {
        let valid: Vec<String> = valid_platform_list();
        let mut candidates: Vec<String> = Vec::new();
        let mut i: usize = 0;
        let ghost all = valid_platforms();
        let ghost pred = |platform: Seq<char>| self.data.available(permitted_kinds@, platform);
        assert(all.take(0).filter(pred) =~= text::views(candidates@)) by {
            reveal(Seq::filter);
        }
        while i < valid.len()
            invariant
                i <= valid@.len(),
                text::views(valid@) == all,
                all.len() == valid@.len(),
                pred == (|platform: Seq<char>| self.data.available(permitted_kinds@, platform)),
                text::views(candidates@) == all.take(i as int).filter(pred),
            decreases valid@.len() - i,
        {
            assert(text::views(valid@)[i as int] == valid@[i as int]@);
            assert(all.take(i + 1) =~= all.take(i as int).push(all[i as int]));
            proof {
                all.take(i as int).lemma_filter_push(all[i as int], pred);
            }
            let ghost before = text::views(candidates@);
            if self.platform_available(permitted_kinds, valid[i].as_str()) {
                candidates.push(valid[i].clone());
                assert(text::views(candidates@) =~= before.push(all[i as int]));
            }
            i += 1;
        }
        assert(all.take(i as int) =~= all);
        candidates
    }

    /// The platform to use: the one asked for, or one of those that have a user
    /// agent.
    pub fn resolve_platform(
        &self,
        opts: &UserAgentOptions,
        permitted_kinds: &Vec<DeviceKind>,
    ) -> (r: Result<String, UserAgentError>)
        ensures
            opts.platform matches Some(p) ==> (if !valid_platforms().contains(p@) {
                r matches Err(e) && e.refuses(platform_message(p@))
            } else if !self.data.available(permitted_kinds@, p@) {
                r matches Err(UserAgentError::ProfileNotFound)
            } else {
                r matches Ok(q) && q@ == p@
            }),
            opts.platform is None ==> (if forall|q: Seq<char>|
                !#[trigger] self.data.usable(permitted_kinds@, None, q) {
                r matches Err(UserAgentError::ProfileNotFound)
            } else {
                r matches Ok(q) && self.data.usable(permitted_kinds@, None, q@)
            }),
    {
        match &opts.platform {
            Some(platform) => {
                if !list_contains(&valid_platform_list(), platform.as_str()) {
                    let mut message: String = "Invalid platform '".to_owned();
                    message.append(platform.as_str());
                    message.append("'; valid: ");
                    message.append(text::joined(&valid_platform_list(), ", ").as_str());
                    return Err(UserAgentError::InvalidOptions(message));
                }
                if !self.platform_available(permitted_kinds, platform.as_str()) {
                    return Err(UserAgentError::ProfileNotFound);
                }
                Ok(platform.clone())
            },
            None => {
                let candidates: Vec<String> = self.platform_candidates(permitted_kinds);
                let ghost pred = |platform: Seq<char>|
                    self.data.available(permitted_kinds@, platform);
                let ghost listed = text::views(candidates@);
                if candidates.is_empty() {
                    assert forall|q: Seq<char>| !#[trigger] self.data.usable(permitted_kinds@, None, q) by {
                        if self.data.usable(permitted_kinds@, None, q) {
                            let j = valid_platforms().index_of(q);
                            assert(pred(valid_platforms()[j]));
                            valid_platforms().lemma_filter_contains(pred, j);
                        }
                    }
                    return Err(UserAgentError::ProfileNotFound);
                }
                let platform: String = random_choice(&candidates);
                proof {
                    let j = candidates@.index_of(platform);
                    assert(listed[j] == platform@);
                    valid_platforms().lemma_filter_pred(pred, j);
                    assert(valid_platforms().filter(pred).contains(platform@));
                    valid_platforms().lemma_filter_contains_rev(pred, platform@);
                    assert(self.data.usable(permitted_kinds@, None, platform@));
                }
                Ok(platform)
            },
        }
    }

    /// The browser that a custom user agent is taken for, with its headers.
    pub fn try_match_custom(&self, custom: &str) -> (r: Option<(&String, &HeaderProfile)>)
        ensures
            match r {
                Some((browser, headers)) => {
                    &&& self.data.recognises(custom@) == Some(browser@)
                    &&& self.data.headers@.contains_key(browser@)
                    &&& *headers == self.data.headers@[browser@]
                },
                None => self.data.recognises(custom@) is None,
            },
    {
        let desktop = self.match_device(DeviceKind::Desktop, custom);
        if desktop.is_some() {
            return desktop;
        }
        self.match_device(DeviceKind::Mobile, custom)
    }

    fn match_device(&self, kind: DeviceKind, custom: &str) -> (r: Option<
        (&String, &HeaderProfile),
    >)
        ensures
            match r {
                Some((browser, headers)) => {
                    &&& self.data.first_of_kind(kind, custom@) == Some(browser@)
                    &&& self.data.headers@.contains_key(browser@)
                    &&& *headers == self.data.headers@[browser@]
                },
                None => self.data.first_of_kind(kind, custom@) is None,
            },
    {
        let platforms: &TextMap<TextMap<Vec<String>>> = match self.data.device_map(kind) {
            Some(m) => m,
            None => {
                return None;
            },
        };
        let mut i: usize = 0;
        while i < platforms.len()
            invariant
                i <= platforms.keys().len(),
                self.data.device(kind) == Some(*platforms),
                self.data.first_of_kind(kind, custom@) == self.data.first_platform(
                    *platforms,
                    custom@,
                    i as nat,
                ),
            decreases platforms.keys().len() - i,
        {
            let found = self.match_browser(platforms.value_at(i), custom);
            if found.is_some() {
                return found;
            }
            i += 1;
        }
        None
    }

    fn match_browser<'a>(&'a self, browsers: &'a TextMap<Vec<String>>, custom: &str) -> (r: Option<
        (&'a String, &'a HeaderProfile),
    >)
        ensures
            match r {
                Some((browser, headers)) => {
                    &&& self.data.first_browser(*browsers, custom@, 0) == Some(browser@)
                    &&& self.data.headers@.contains_key(browser@)
                    &&& *headers == self.data.headers@[browser@]
                },
                None => self.data.first_browser(*browsers, custom@, 0) is None,
            },
    {
        let mut b: usize = 0;
        while b < browsers.len()
            invariant
                b <= browsers.keys().len(),
                self.data.first_browser(*browsers, custom@, 0) == self.data.first_browser(
                    *browsers,
                    custom@,
                    b as nat,
                ),
            decreases browsers.keys().len() - b,
        {
            let browser: &String = browsers.key_at(b);
            if any_contains(browsers.value_at(b), custom) {
                if let Some(headers) = self.data.headers.get(browser.as_str()) {
                    return Some((browser, headers));
                }
            }
            b += 1;
        }
        None
    }
}

impl UserAgentManager {
    /// The profile of a browser with a given user agent.
    pub fn complete_profile(
        &self,
        browser: &str,
        user_agent: &str,
        allow_brotli: bool,
    ) -> (r: Result<UserAgentProfile, UserAgentError>)
        ensures
            self.data.completes(browser@, user_agent@, allow_brotli, r),
    {
        let mut map: TextMap<String> = match self.data.headers.get(browser) {
            Some(headers) => header_profile_to_map(headers),
            None => {
                return Err(UserAgentError::ProfileNotFound);
            },
        };
        put(&mut map, "User-Agent", user_agent);
        if !allow_brotli {
            strip_brotli(&mut map);
        }
        let cipher_suites: Vec<String> = match self.data.cipher_suites.get(browser) {
            Some(suites) => copy_texts(suites),
            None => Vec::new(),
        };
        assert(text::views(cipher_suites@) =~= self.data.suites(browser@, Seq::empty()));
        Ok(UserAgentProfile { headers: map, cipher_suites })
    }

    /// The profile around a custom user agent, which it holds verbatim.
    pub fn custom_profile(&self, custom: String) -> (r: Result<UserAgentProfile, UserAgentError>)
        ensures
            r matches Ok(profile) && profile@ == self.data.customised(custom@),
    {
        match self.try_match_custom(custom.as_str()) {
            Some((browser, headers)) => {
                let mut map: TextMap<String> = header_profile_to_map(headers);
                put(&mut map, "User-Agent", custom.as_str());
                let cipher_suites: Vec<String> = match self.data.cipher_suites.get(
                    browser.as_str(),
                ) {
                    Some(suites) => copy_texts(suites),
                    None => default_cipher_suites(),
                };
                let profile = UserAgentProfile { headers: map, cipher_suites };
                assert(profile@ == self.data.recognised(custom@, browser@));
                Ok(profile)
            },
            None => {
                Ok(
                    UserAgentProfile {
                        headers: default_headers(custom.as_str()),
                        cipher_suites: default_cipher_suites(),
                    },
                )
            },
        }
    }

    /// Selects a profile.
    pub fn select_profile(&self, opts: UserAgentOptions) -> (r: Result<
        UserAgentProfile,
        UserAgentError,
    >)
        ensures
            self.data.selects(opts, r),
    {
        if !opts.desktop && !opts.mobile {
            return Err(
                UserAgentError::InvalidOptions(
                    "Desktop and mobile cannot both be disabled".to_owned(),
                ),
            );
        }
        if let Some(custom) = opts.custom {
            return self.custom_profile(custom);
        }
        let permitted_kinds: Vec<DeviceKind> = permitted_device_kinds(&opts);
        let platform: String = match self.resolve_platform(&opts, &permitted_kinds) {
            Ok(platform) => platform,
            Err(error) => {
                return Err(error);
            },
        };
        assert(self.data.usable(opts.kinds(), opts.wanted(), platform@));
        let filtered: TextMap<Vec<String>> = self.collect_profiles(
            &permitted_kinds,
            platform.as_str(),
        );
        let browser: String = match &opts.browser {
            Some(browser) => {
                if !filtered.contains_key(browser.as_str()) {
                    let mut message: String = "Browser '".to_owned();
                    message.append(browser.as_str());
                    message.append("' not available for platform '");
                    message.append(platform.as_str());
                    message.append("'");
                    let error = UserAgentError::InvalidOptions(message);
                    assert(error.refuses(browser_message(browser@, platform@)));
                    return Err(error);
                }
                browser.clone()
            },
            None => {
                let browsers: Vec<String> = keys_of(&filtered);
                proof {
                    let b = choose|b: Seq<char>| #[trigger]
                        self.data.offered(opts.kinds(), platform@, b).len() > 0;
                    assert(filtered@.contains_key(b));
                    text_map::law_keys(&filtered);
                    assert(filtered.keys().contains(b));
                    assert(text::views(browsers@).len() > 0);
                }
                let browser: String = random_choice(&browsers);
                proof {
                    let j = browsers@.index_of(browser);
                    assert(text::views(browsers@)[j] == browser@);
                    text_map::law_keys(&filtered);
                    assert(filtered.keys().contains(browser@));
                }
                browser
            },
        };
        assert(filtered@.contains_key(browser@));
        let user_agent: String = match filtered.get(browser.as_str()) {
            Some(agents) => {
                let user_agent: String = random_choice(agents);
                assert(agents@ == self.data.offered(opts.kinds(), platform@, browser@));
                user_agent
            },
            None => String::new(),
        };
        let r = self.complete_profile(browser.as_str(), user_agent.as_str(), opts.allow_brotli);
        proof {
            let offered = self.data.offered(opts.kinds(), platform@, browser@);
            let i = offered.index_of(user_agent);
            assert(offered[i] == user_agent);
            assert(self.data.completes(browser@, offered[i]@, opts.allow_brotli, r));
            assert(self.data.outfits(opts, platform@, browser@, r));
            assert(self.data.equips(opts, platform@, r));
        }
        r
    }
}

fn keys_of(map: &TextMap<Vec<String>>) -> (r: Vec<String>)
    ensures
        text::views(r@) == map.keys(),
{
    let mut r: Vec<String> = Vec::new();
    let mut i: usize = 0;
    assert(text::views(r@) =~= map.keys().take(0));
    while i < map.len()
        invariant
            i <= map.keys().len(),
            text::views(r@) == map.keys().take(i as int),
        decreases map.keys().len() - i,
    {
        let ghost before = text::views(r@);
        r.push(map.key_at(i).clone());
        assert(text::views(r@) =~= before.push(map.keys()[i as int]));
        assert(map.keys().take(i + 1) =~= map.keys().take(i as int).push(map.keys()[i as int]));
        i += 1;
    }
    assert(map.keys().take(i as int) =~= map.keys());
    r
}

impl UserAgentError {
    /// The error in words.
    pub open spec fn described(self) -> Seq<char> {
        match self {
            UserAgentError::FileMissing { path } => "user-agent data file missing: "@ + path@,
            UserAgentError::InvalidJson { path, source } => "user-agent JSON invalid at "@ + path@
                + ": "@ + source@,
            UserAgentError::InvalidEmbedded(source) => "embedded user-agent dataset is invalid: "@
                + source@,
            UserAgentError::Io { path, source } => "I/O error reading "@ + path@ + ": "@ + source@,
            UserAgentError::NoDataSources => "no user-agent data sources found"@,
            UserAgentError::InvalidOptions(message) => "invalid user-agent options: "@ + message@,
            UserAgentError::ProfileNotFound => "no matching user-agent profile found"@,
            UserAgentError::InitializationFailure(message) =>
            "user-agent manager initialization failed: "@ + message@,
        }
    }

    /// The error in words.
    pub fn message(&self) -> (r: String)
        ensures
            r@ == self.described(),
    {
        match self {
            UserAgentError::FileMissing { path } => "user-agent data file missing: ".to_owned().concat(
                path.as_str(),
            ),
            UserAgentError::InvalidJson { path, source } => {
                "user-agent JSON invalid at ".to_owned().concat(path.as_str()).concat(": ").concat(
                    source.as_str(),
                )
            },
            UserAgentError::InvalidEmbedded(source) => {
                "embedded user-agent dataset is invalid: ".to_owned().concat(source.as_str())
            },
            UserAgentError::Io { path, source } => {
                "I/O error reading ".to_owned().concat(path.as_str()).concat(": ").concat(
                    source.as_str(),
                )
            },
            UserAgentError::NoDataSources => "no user-agent data sources found".to_owned(),
            UserAgentError::InvalidOptions(message) => {
                "invalid user-agent options: ".to_owned().concat(message.as_str())
            },
            UserAgentError::ProfileNotFound => "no matching user-agent profile found".to_owned(),
            UserAgentError::InitializationFailure(message) => {
                "user-agent manager initialization failed: ".to_owned().concat(message.as_str())
            },
        }
    }
}

/// Selects a profile from the manager that was loaded, or reports why none was.
pub fn get_user_agent_profile(
    manager: &Result<UserAgentManager, UserAgentError>,
    opts: UserAgentOptions,
) -> (r: Result<UserAgentProfile, UserAgentError>)
    ensures
        match *manager {
            Ok(m) => m.data.selects(opts, r),
            Err(e) => r matches Err(UserAgentError::InitializationFailure(m)) && m@
                == e.described(),
        },
{
    match manager {
        Ok(m) => m.select_profile(opts),
        Err(e) => Err(UserAgentError::InitializationFailure(e.message())),
    }
}

/// A place on disk where a customised dataset may lie.
#[derive(Debug)]
pub enum CandidatePath {
    /// An explicit path.
    Custom(String),
    /// `browsers.json` in the working directory.
    WorkingDirectory,
}

/// The candidate places, in the order in which they are tried: the explicit
/// path unless it is empty, then the working directory where it is known.
pub open spec fn candidates(custom: Option<String>, has_directory: bool) -> Seq<CandidatePath> {
    let none = Seq::<CandidatePath>::empty();
    let first = match custom {
        Some(path) => if path@.len() > 0 {
            none.push(CandidatePath::Custom(path))
        } else {
            none
        },
        None => none,
    };
    if has_directory { first.push(CandidatePath::WorkingDirectory) } else { first }
}

/// The candidate places, in the order in which they are tried.
pub fn candidate_paths(custom: Option<String>, has_directory: bool) -> (r: Vec<CandidatePath>)
    ensures
        r@ == candidates(custom, has_directory),
{
    let mut paths: Vec<CandidatePath> = Vec::new();
    if let Some(path) = custom {
        if !path.as_str().is_empty() {
            paths.push(CandidatePath::Custom(path));
        }
    }
    if has_directory {
        paths.push(CandidatePath::WorkingDirectory);
    }
    paths
}

/// What is to be done next in loading a dataset.
#[derive(Debug)]
pub enum LoadStage {
    /// Read the candidate at this index.
    Read(usize),
    /// Parse what a candidate held.
    Parse { path: String, contents: String },
    /// Parse the embedded dataset.
    ParseEmbedded,
    /// Nothing: loading is over.
    Over(Result<UserAgentManager, UserAgentError>),
}

/// What came of a stage. A `path` is in quoted form.
#[derive(Debug)]
pub enum LoadEvent {
    Contents { path: String, contents: String },
    Missing,
    Failed { path: String, source: String },
    Parsed(UserAgentData),
    Unparsable(String),
}

/// The loading of a dataset: from the first candidate that is there, or else
/// from the embedded one.
#[derive(Debug)]
pub struct Loading {
    pub candidates: Vec<CandidatePath>,
    pub stage: LoadStage,
}

impl Loading {
    /// The stage that turns to a candidate, or to the embedded dataset after
    /// the last.
    pub open spec fn turn(self, n: int) -> LoadStage {
        if n < self.candidates@.len() {
            LoadStage::Read(n as usize)
        } else {
            LoadStage::ParseEmbedded
        }
    }

    /// Whether `next` is the stage after an event. An event that the stage does
    /// not call for changes nothing.
    pub open spec fn follows(self, event: LoadEvent, next: LoadStage) -> bool {
        match (self.stage, event) {
            (LoadStage::Read(_), LoadEvent::Contents { path, contents }) => {
                next == LoadStage::Parse { path, contents }
            },
            (LoadStage::Read(n), LoadEvent::Missing) => next == self.turn(n + 1),
            (LoadStage::Read(_), LoadEvent::Failed { path, source }) => next == LoadStage::Over(
                Err(UserAgentError::Io { path, source }),
            ),
            (LoadStage::Parse { .. }, LoadEvent::Parsed(data)) => next == LoadStage::Over(
                Ok(UserAgentManager { data }),
            ),
            (LoadStage::Parse { path, .. }, LoadEvent::Unparsable(source)) => {
                next == LoadStage::Over(Err(UserAgentError::InvalidJson { path, source }))
            },
            (LoadStage::ParseEmbedded, LoadEvent::Parsed(data)) => next == LoadStage::Over(
                Ok(UserAgentManager { data }),
            ),
            (LoadStage::ParseEmbedded, LoadEvent::Unparsable(source)) => next == LoadStage::Over(
                Err(UserAgentError::InvalidEmbedded(source)),
            ),
            _ => next == self.stage,
        }
    }

    /// Loading that starts.
    pub fn start(candidates: Vec<CandidatePath>) -> (r: Loading)
        ensures
            r.candidates == candidates,
            r.stage == r.turn(0),
    {
        let stage: LoadStage = if candidates.len() > 0 {
            LoadStage::Read(0)
        } else {
            LoadStage::ParseEmbedded
        };
        Loading { candidates, stage }
    }

    /// The loading after an event.
    pub fn advance(self, event: LoadEvent) -> (r: Loading)
        ensures
            r.candidates == self.candidates,
            self.follows(event, r.stage),
    {
        let candidates: Vec<CandidatePath> = self.candidates;
        let stage: LoadStage = match (self.stage, event) {
            (LoadStage::Read(_), LoadEvent::Contents { path, contents }) => LoadStage::Parse {
                path,
                contents,
            },
            (LoadStage::Read(n), LoadEvent::Missing) => if n < candidates.len() && n + 1
                < candidates.len() {
                LoadStage::Read(n + 1)
            } else {
                LoadStage::ParseEmbedded
            },
            (LoadStage::Read(_), LoadEvent::Failed { path, source }) => LoadStage::Over(
                Err(UserAgentError::Io { path, source }),
            ),
            (LoadStage::Parse { .. }, LoadEvent::Parsed(data)) => LoadStage::Over(
                Ok(UserAgentManager { data }),
            ),
            (LoadStage::Parse { path, .. }, LoadEvent::Unparsable(source)) => LoadStage::Over(
                Err(UserAgentError::InvalidJson { path, source }),
            ),
            (LoadStage::ParseEmbedded, LoadEvent::Parsed(data)) => LoadStage::Over(
                Ok(UserAgentManager { data }),
            ),
            (LoadStage::ParseEmbedded, LoadEvent::Unparsable(source)) => LoadStage::Over(
                Err(UserAgentError::InvalidEmbedded(source)),
            ),
            (stage, _) => stage,
        };
        Loading { candidates, stage }
    }
}

fn list_contains(list: &Vec<String>, item: &str) -> (r: bool)
    ensures
        r == text::views(list@).contains(item@),
{
    let mut i: usize = 0;
    while i < list.len()
        invariant
            i <= list@.len(),
            forall|j: int| 0 <= j < i ==> #[trigger] list@[j]@ != item@,
        decreases list@.len() - i,
    {
        if text::same(list[i].as_str(), item) {
            assert(text::views(list@)[i as int] == item@);
            return true;
        }
        i += 1;
    }
    proof {
        if text::views(list@).contains(item@) {
            let j = text::views(list@).index_of(item@);
            assert(list@[j]@ == item@);
        }
    }
    false
}

fn any_contains(list: &Vec<String>, needle: &str) -> (r: bool)
    ensures
        r == (exists|i: int| 0 <= i < list@.len() && text::occurs(needle@, #[trigger] list@[i]@)),
{
    let mut i: usize = 0;
    while i < list.len()
        invariant
            i <= list@.len(),
            forall|j: int| 0 <= j < i ==> !text::occurs(needle@, #[trigger] list@[j]@),
        decreases list@.len() - i,
    {
        if text::contains(list[i].as_str(), needle) {
            return true;
        }
        i += 1;
    }
    false
}

/// The texts kept under a key, none where the key is absent.
spec fn held(map: TextMap<Vec<String>>, key: Seq<char>) -> Seq<String> {
    if map@.contains_key(key) {
        map@[key]@
    } else {
        Seq::empty()
    }
}

proof fn lemma_offered_grows(
    data: UserAgentData,
    kinds: Seq<DeviceKind>,
    n: int,
    platform: Seq<char>,
    browser: Seq<char>,
)
    requires
        0 <= n <= kinds.len(),
    ensures
        data.offered(kinds.take(n), platform, browser).len() <= data.offered(
            kinds,
            platform,
            browser,
        ).len(),
    decreases kinds.len() - n,
{
    if n < kinds.len() {
        assert(kinds.take(n + 1).drop_last() =~= kinds.take(n));
        lemma_offered_grows(data, kinds, n + 1, platform, browser);
    } else {
        assert(kinds.take(n) =~= kinds);
    }
}

/// Appends a list of texts to those kept under a key.
fn extend_entry(map: &mut TextMap<Vec<String>>, key: &str, list: &Vec<String>)
    ensures
        final(map)@.contains_key(key@),
        final(map)@[key@]@ == held(*old(map), key@) + list@,
        final(map)@.remove(key@) == old(map)@.remove(key@),
{
    let mut texts: Vec<String> = match map.remove(key) {
        Some(v) => v,
        None => Vec::new(),
    };
    assert(texts@ =~= held(*old(map), key@));
    append_texts(&mut texts, list);
    map.insert(key.to_owned(), texts);
    assert(map@.remove(key@) =~= old(map)@.remove(key@));
}

/// Appends every non-empty list of one map to the lists of another.
fn collect_browsers(filtered: &mut TextMap<Vec<String>>, browsers: &TextMap<Vec<String>>)
    requires
        forall|b: Seq<char>| #[trigger]
            old(filtered)@.contains_key(b) ==> old(filtered)@[b]@.len() > 0,
    ensures
        forall|b: Seq<char>| #[trigger]
            held(*final(filtered), b) == held(*old(filtered), b) + held(*browsers, b),
        forall|b: Seq<char>| #[trigger]
            final(filtered)@.contains_key(b) ==> final(filtered)@[b]@.len() > 0,
{
    let mut j: usize = 0;
    let ghost keys = browsers.keys();
    while j < browsers.len()
        invariant
            keys == browsers.keys(),
            j <= keys.len(),
            forall|b: Seq<char>| #[trigger]
                held(*filtered, b) == held(*old(filtered), b) + (if keys.take(j as int).contains(b) {
                    held(*browsers, b)
                } else {
                    Seq::empty()
                }),
            forall|b: Seq<char>| #[trigger]
                filtered@.contains_key(b) ==> filtered@[b]@.len() > 0,
        decreases keys.len() - j,
    {
        let browser: &String = browsers.key_at(j);
        let agents: &Vec<String> = browsers.value_at(j);
        let ghost before = *filtered;
        let ghost seen = keys.take(j as int);
        let ghost next = keys.take(j + 1);
        assert(next =~= seen.push(browser@));
        assert(!seen.contains(browser@));
        if agents.len() > 0 {
            extend_entry(filtered, browser.as_str(), agents);
        }
        assert forall|b: Seq<char>| #[trigger]
            held(*filtered, b) == held(*old(filtered), b) + (if next.contains(b) {
                held(*browsers, b)
            } else {
                Seq::empty()
            }) by {
            assert(held(before, b) == held(*old(filtered), b) + (if seen.contains(b) {
                held(*browsers, b)
            } else {
                Seq::empty()
            }));
            if b == browser@ {
                assert(next.last() == b);
                assert(next.contains(b));
                assert(held(*filtered, b) =~= held(before, b) + agents@);
            } else {
                assert(filtered@.remove(browser@).contains_key(b) == before@.remove(browser@).contains_key(b));
                if before@.contains_key(b) {
                    assert(filtered@.remove(browser@)[b] == before@.remove(browser@)[b]);
                }
                if next.contains(b) {
                    let i = next.index_of(b);
                    assert(seen[i] == b);
                }
                if seen.contains(b) {
                    let i = seen.index_of(b);
                    assert(next[i] == b);
                }
            }
        }
        assert forall|b: Seq<char>| #[trigger]
            filtered@.contains_key(b) implies filtered@[b]@.len() > 0 by {
            if b != browser@ {
                assert(filtered@.remove(browser@).contains_key(b));
                assert(before@.remove(browser@).contains_key(b));
                assert(filtered@.remove(browser@)[b] == before@.remove(browser@)[b]);
            } else if agents@.len() == 0 {
                assert(before@.contains_key(b));
            }
        }
        j += 1;
    }
    proof {
        text_map::law_keys(browsers);
        assert(keys.take(j as int) =~= keys);
        assert forall|b: Seq<char>| #[trigger]
            held(*filtered, b) == held(*old(filtered), b) + held(*browsers, b) by {
            assert(keys.contains(b) <==> browsers@.contains_key(b));
        }
    }
}

} // verus!
