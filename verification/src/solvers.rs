//! What the solvers share: their interfaces and the plan that a mitigation
//! gives.

use crate::text_map::TextMap;
use std::time::Duration;
use vstd::prelude::*;

verus! {

/// Common interface of the solvers.
pub trait ChallengeSolver {
    fn name(&self) -> &'static str;
}

/// Records mitigation failures by domain.
pub trait FailureRecorder {
    fn record_failure(&self, domain: &str, reason: &str);
}

/// Invalidates fingerprints.
pub trait FingerprintManager {
    fn invalidate(&mut self, domain: &str);
}

/// Rotates TLS profiles.
pub trait TlsProfileManager {
    fn rotate_profile(&mut self, domain: &str);
}

/// Instructions that a solver without a form to submit gives.
#[derive(Debug, PartialEq)]
pub struct MitigationPlan {
    pub should_retry: bool,
    pub wait: Option<Duration>,
    pub reason: String,
    pub new_proxy: Option<String>,
    pub headers: TextMap<String>,
    pub metadata: TextMap<String>,
}

/// What a plan holds.
pub struct PlanView {
    pub should_retry: bool,
    pub wait: Option<Duration>,
    pub reason: Seq<char>,
    pub new_proxy: Option<Seq<char>>,
    pub headers: Map<Seq<char>, Seq<char>>,
    pub metadata: Map<Seq<char>, Seq<char>>,
}

impl View for MitigationPlan {
    type V = PlanView;

    open spec fn view(&self) -> PlanView {
        PlanView {
            should_retry: self.should_retry,
            wait: self.wait,
            reason: self.reason@,
            new_proxy: match self.new_proxy {
                Some(proxy) => Some(proxy@),
                None => None,
            },
            headers: self.headers.texts(),
            metadata: self.metadata.texts(),
        }
    }
}

impl PlanView {
    /// A plan with nothing attached.
    pub open spec fn bare(should_retry: bool, wait: Option<Duration>, reason: Seq<char>) -> PlanView {
        PlanView {
            should_retry,
            wait,
            reason,
            new_proxy: None,
            headers: Map::empty(),
            metadata: Map::empty(),
        }
    }
}

fn no_entries() -> (r: TextMap<String>)
    ensures
        r@ == Map::<Seq<char>, String>::empty(),
        r.texts() == Map::<Seq<char>, Seq<char>>::empty(),
{
    let r: TextMap<String> = TextMap::new();
    assert(r.texts() =~= Map::<Seq<char>, Seq<char>>::empty());
    r
}

impl Clone for MitigationPlan {
    fn clone(&self) -> (r: MitigationPlan)
        ensures
            r@ == self@,
    {
        let r = MitigationPlan {
            should_retry: self.should_retry,
            wait: self.wait,
            reason: self.reason.clone(),
            new_proxy: self.new_proxy.clone(),
            headers: self.headers.clone(),
            metadata: self.metadata.clone(),
        };
        assert(r.headers.texts() =~= self.headers.texts());
        assert(r.metadata.texts() =~= self.metadata.texts());
        r
    }
}

impl MitigationPlan {
    /// Retry after a wait.
    pub fn retry_after(wait: Duration, reason: &str) -> (r: MitigationPlan)
        ensures
            r@ == PlanView::bare(true, Some(wait), reason@),
            r.should_retry,
            r.wait == Some(wait),
            r.reason@ == reason@,
            r.new_proxy is None,
            r.headers@ == Map::<Seq<char>, String>::empty(),
            r.metadata@ == Map::<Seq<char>, String>::empty(),
    {
        MitigationPlan {
            should_retry: true,
            wait: Some(wait),
            reason: reason.to_owned(),
            new_proxy: None,
            headers: no_entries(),
            metadata: no_entries(),
        }
    }

    /// Retry at once.
    pub fn retry_immediately(reason: &str) -> (r: MitigationPlan)
        ensures
            r@ == PlanView::bare(true, None, reason@),
            r.should_retry,
            r.wait is None,
            r.reason@ == reason@,
            r.new_proxy is None,
            r.headers@ == Map::<Seq<char>, String>::empty(),
            r.metadata@ == Map::<Seq<char>, String>::empty(),
    {
        MitigationPlan {
            should_retry: true,
            wait: None,
            reason: reason.to_owned(),
            new_proxy: None,
            headers: no_entries(),
            metadata: no_entries(),
        }
    }

    /// Do not retry.
    pub fn no_retry(reason: &str) -> (r: MitigationPlan)
        ensures
            r@ == PlanView::bare(false, None, reason@),
            !r.should_retry,
            r.wait is None,
            r.reason@ == reason@,
            r.new_proxy is None,
            r.headers@ == Map::<Seq<char>, String>::empty(),
            r.metadata@ == Map::<Seq<char>, String>::empty(),
    {
        MitigationPlan {
            should_retry: false,
            wait: None,
            reason: reason.to_owned(),
            new_proxy: None,
            headers: no_entries(),
            metadata: no_entries(),
        }
    }

    /// The plan with another proxy to use.
    pub fn with_proxy(self, proxy: &str) -> (r: MitigationPlan)
        ensures
            r@ == (PlanView { new_proxy: Some(proxy@), ..self@ }),
            r.new_proxy is Some,
            r.new_proxy->0@ == proxy@,
            r.should_retry == self.should_retry,
            r.wait == self.wait,
            r.reason == self.reason,
            r.headers == self.headers,
            r.metadata == self.metadata,
    {
        MitigationPlan { new_proxy: Some(proxy.to_owned()), ..self }
    }

    /// The plan with one more item of metadata.
    pub fn insert_metadata(self, key: &str, value: &str) -> (r: MitigationPlan)
        ensures
            r@ == (PlanView { metadata: self@.metadata.insert(key@, value@), ..self@ }),
            r.metadata@.contains_key(key@),
            r.metadata@[key@]@ == value@,
            r.metadata@.remove(key@) == self.metadata@.remove(key@),
            r.should_retry == self.should_retry,
            r.wait == self.wait,
            r.reason == self.reason,
            r.new_proxy == self.new_proxy,
            r.headers == self.headers,
    {
        let mut metadata: TextMap<String> = self.metadata;
        metadata.insert(key.to_owned(), value.to_owned());
        let r = MitigationPlan { metadata, ..self };
        assert(r@.metadata =~= self@.metadata.insert(key@, value@));
        r
    }
}

/// The solvers.
#[derive(Debug, Clone, Copy, PartialEq, Eq)]
pub enum SolverVariant {
    JavascriptV1,
    JavascriptV2,
    ManagedV3,
    Turnstile,
    RateLimit,
    AccessDenied,
    BotManagement,
}

/// A plan says no more than it was made with: whether and when to retry and why,
/// with no proxy, no headers and no metadata.
pub proof fn law_bare_plan(should_retry: bool, wait: Option<Duration>, reason: Seq<char>)
    ensures
        ({
            let p = PlanView::bare(should_retry, wait, reason);
            &&& p.should_retry == should_retry
            &&& p.wait == wait
            &&& p.reason == reason
            &&& p.new_proxy is None
            &&& p.headers == Map::<Seq<char>, Seq<char>>::empty()
            &&& p.metadata == Map::<Seq<char>, Seq<char>>::empty()
        }),
{
}

/// What a plan holds is what its fields hold, each of them.
pub proof fn law_plan_holds_its_fields(plan: MitigationPlan)
    ensures
        plan@.should_retry == plan.should_retry,
        plan@.wait == plan.wait,
        plan@.reason == plan.reason@,
        plan@.new_proxy is Some == plan.new_proxy is Some,
        plan.new_proxy is Some ==> plan@.new_proxy->0 == plan.new_proxy->0@,
        plan@.headers.dom() == plan.headers@.dom(),
        forall|k: Seq<char>| #[trigger]
            plan.headers@.contains_key(k) ==> plan@.headers[k] == plan.headers@[k]@,
        plan@.metadata.dom() == plan.metadata@.dom(),
        forall|k: Seq<char>| #[trigger]
            plan.metadata@.contains_key(k) ==> plan@.metadata[k] == plan.metadata@[k]@,
{
    assert(plan@.headers.dom() =~= plan.headers@.dom());
    assert(plan@.metadata.dom() =~= plan.metadata@.dom());
}

} // verus!
