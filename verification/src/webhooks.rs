//! Signed webhook delivery for contract event subscriptions: subscription
//! validation and matching, request signatures, and the retry schedule.
use std::collections::HashMap;
use std::time::Duration;
use vstd::prelude::*;
use vstd::string::StringSliceAdditionalSpecFns;

verus! {

broadcast use vstd::std_specs::hash::group_hash_axioms;

/// Header that carries the request signature.
pub const SIGNATURE_HEADER: &'static str = "x-soroscope-signature";

/// Header that carries the delivery id.
pub const DELIVERY_HEADER: &'static str = "x-soroscope-delivery";

/// Header that carries the signing timestamp.
pub const TIMESTAMP_HEADER: &'static str = "x-soroscope-timestamp";

/// JSON value of an event's payload, carried through unread.
#[verifier::external_type_specification]
#[verifier::external_body]
pub struct ExJsonValue(serde_json::Value);


/// Whole seconds of a duration, as `Duration::as_secs` reports them.
pub uninterp spec fn duration_secs(d: Duration) -> u64;

/// Fractional part of a duration in nanoseconds, as `Duration::subsec_nanos`
/// reports it.
pub uninterp spec fn duration_subsec_nanos(d: Duration) -> u32;

/// Length of a duration in nanoseconds.
pub open spec fn duration_nanos(d: Duration) -> int {
    duration_secs(d) * 1_000_000_000 + duration_subsec_nanos(d)
}

/// Calls `Duration::as_secs`.
#[verifier::external_body]
fn duration_as_secs(d: &Duration) -> (s: u64)
    ensures
        s == duration_secs(*d),
{
    d.as_secs()
}

/// Calls `Duration::subsec_nanos`, which std documents to be below one
/// billion.
#[verifier::external_body]
fn duration_subsec(d: &Duration) -> (n: u32)
    ensures
        n == duration_subsec_nanos(*d),
        n < 1_000_000_000,
{
    d.subsec_nanos()
}

/// Calls `Duration::new`; with fewer than a billion nanoseconds nothing carries
/// over, so the parts read back unchanged.
#[verifier::external_body]
fn duration_new(secs: u64, nanos: u32) -> (d: Duration)
    requires
        nanos < 1_000_000_000,
    ensures
        duration_secs(d) == secs,
        duration_subsec_nanos(d) == nanos,
{
    Duration::new(secs, nanos)
}

/// `Duration` is `Copy`: its `clone` hands back the same value.
pub assume_specification[ <Duration as Clone>::clone ](d: &Duration) -> (r: Duration)
    ensures
        r == *d,
;

/// Nanoseconds in `Duration::MAX`.
pub open spec fn duration_max_nanos() -> int {
    u64::MAX * 1_000_000_000 + 999_999_999
}

/// Delay in nanoseconds before the attempt that follows `completed_attempts`
/// attempts: the base doubled once per completed attempt after the first
/// (at most 31 times), saturated as `Duration` saturates, and capped at
/// `max_nanos`.
pub open spec fn spec_retry_delay_nanos(base_nanos: int, max_nanos: int, completed_attempts: u32) -> int {
    let exponent = if completed_attempts == 0 { 0 } else if completed_attempts - 1 > 31 { 31 } else { completed_attempts - 1 };
    let scaled = base_nanos * vstd::arithmetic::power2::pow2(exponent as nat);
    let saturated = if scaled > duration_max_nanos() { duration_max_nanos() } else { scaled };
    if saturated < max_nanos { saturated } else { max_nanos }
}

/// The backoff is bounded: no delay exceeds the configured maximum (nor
/// `Duration::MAX`).
pub proof fn lemma_retry_delay_capped(base_nanos: int, max_nanos: int, completed_attempts: u32)
    requires
        base_nanos >= 0,
    ensures
        spec_retry_delay_nanos(base_nanos, max_nanos, completed_attempts) <= max_nanos,
        spec_retry_delay_nanos(base_nanos, max_nanos, completed_attempts) <= duration_max_nanos(),
{
}

/// The backoff never shrinks from one attempt to a later one.
pub proof fn lemma_retry_delay_monotone(base_nanos: int, max_nanos: int, a1: u32, a2: u32)
    requires
        base_nanos >= 0,
        a1 <= a2,
    ensures
        spec_retry_delay_nanos(base_nanos, max_nanos, a1) <= spec_retry_delay_nanos(base_nanos, max_nanos, a2),
{
    let e1: u32 = if a1 == 0 { 0 } else if a1 - 1 > 31 { 31 } else { (a1 - 1) as u32 };
    let e2: u32 = if a2 == 0 { 0 } else if a2 - 1 > 31 { 31 } else { (a2 - 1) as u32 };
    assert(e1 <= e2);
    if e1 < e2 {
        vstd::arithmetic::power2::lemma_pow2_strictly_increases(e1 as nat, e2 as nat);
    }
    let p1 = vstd::arithmetic::power2::pow2(e1 as nat);
    let p2 = vstd::arithmetic::power2::pow2(e2 as nat);
    assert(base_nanos * p1 <= base_nanos * p2) by (nonlinear_arith)
        requires base_nanos >= 0, p1 <= p2;
}

/// Delivery settings.
#[derive(Clone, Debug)]
pub struct WebhookConfig {
    pub queue_capacity: usize,
    pub request_timeout: Duration,
    pub max_attempts: u32,
    pub retry_base: Duration,
    pub retry_max: Duration,
}

impl Default for WebhookConfig {
    /// A queue of 1024 events, 10 s request timeout, 5 attempts, and a
    /// backoff from 1 s up to 60 s.
    fn default() -> (c: Self)
        ensures
            c.queue_capacity == 1024,
            duration_nanos(c.request_timeout) == 10_000_000_000,
            c.max_attempts == 5,
            duration_nanos(c.retry_base) == 1_000_000_000,
            duration_nanos(c.retry_max) == 60_000_000_000,
    {
        WebhookConfig {
            queue_capacity: 1_024,
            request_timeout: duration_new(10, 0),
            max_attempts: 5,
            retry_base: duration_new(1, 0),
            retry_max: duration_new(60, 0),
        }
    }
}

impl WebhookConfig {
    /// Backoff before the next attempt, once `completed_attempts` attempts
    /// have failed.
    pub fn retry_delay(&self, completed_attempts: u32) -> (d: Duration)
        ensures
            duration_nanos(d) == spec_retry_delay_nanos(
                duration_nanos(self.retry_base),
                duration_nanos(self.retry_max),
                completed_attempts,
            ),
            duration_subsec_nanos(self.retry_base) < 1_000_000_000,
            duration_subsec_nanos(self.retry_max) < 1_000_000_000,
            completed_attempts <= 1 ==> duration_nanos(d) == (if duration_nanos(self.retry_base) < duration_nanos(
                self.retry_max,
            ) {
                duration_nanos(self.retry_base)
            } else {
                duration_nanos(self.retry_max)
            }),
    {
        let sub = completed_attempts.saturating_sub(1);
        let exponent: u32 = if sub < 31 { sub } else { 31 };
        proof {
            vstd::bits::lemma_u32_pow2_no_overflow(exponent as nat);
            vstd::bits::lemma_u32_shl_is_mul(1, exponent);
            vstd::arithmetic::power2::lemma2_to64();
            if exponent < 31 {
                vstd::arithmetic::power2::lemma_pow2_strictly_increases(exponent as nat, 31);
            }
        }
        let factor: u32 = 1u32 << exponent;
        let base: u128 = duration_as_secs(&self.retry_base) as u128 * 1_000_000_000 + duration_subsec(&self.retry_base) as u128;
        let max: u128 = duration_as_secs(&self.retry_max) as u128 * 1_000_000_000 + duration_subsec(&self.retry_max) as u128;
        assert(base * factor <= 0xffff_ffff_ffff_ffffu128 * 1_000_000_000u128 * 0x8000_0000u128 + 999_999_999u128 * 0x8000_0000u128) by (nonlinear_arith)
            requires base <= 0xffff_ffff_ffff_ffffu128 * 1_000_000_000u128 + 999_999_999u128, factor <= 0x8000_0000u128;
        let scaled: u128 = base * (factor as u128);
        let cap: u128 = 0xffff_ffff_ffff_ffffu128 * 1_000_000_000 + 999_999_999;
        let saturated = if scaled > cap { cap } else { scaled };
        let n = if saturated < max { saturated } else { max };
        proof {
            let b = duration_nanos(self.retry_base);
            assert(b <= duration_max_nanos()) by (nonlinear_arith)
                requires
                    b == duration_secs(self.retry_base) * 1_000_000_000 + duration_subsec_nanos(self.retry_base),
                    duration_secs(self.retry_base) <= u64::MAX,
                    duration_subsec_nanos(self.retry_base) < 1_000_000_000,
            ;
            if completed_attempts <= 1 {
                vstd::arithmetic::power2::lemma2_to64();
                assert(vstd::arithmetic::power2::pow2(0) == 1);
                assert(b * vstd::arithmetic::power2::pow2(0) == b);
            }
        }
        duration_new((n / 1_000_000_000) as u64, (n % 1_000_000_000) as u32)
    }
}


// ── Errors ────────────────────────────────────────────────────

/// Why a webhook operation failed.
#[derive(Debug)]
pub enum WebhookError {
    InvalidSubscription(String),
    QueueClosed,
    /// The payload could not be serialized; the serializer's message.
    Serialization(String),
    DeliveryFailed { attempts: u32, reason: String },
}

// ── Subscriptions ─────────────────────────────────────────────

/// Whether `c` has the Unicode `White_Space` property, as
/// `char::is_whitespace` decides: tab through carriage return, space, next
/// line, no-break space, ogham space mark, the spaces U+2000 to U+200A, line
/// and paragraph separators, narrow no-break space, medium mathematical
/// space and ideographic space.
pub open spec fn spec_is_whitespace(c: char) -> bool {
    let n = c as u32;
    ||| 0x09 <= n <= 0x0D
    ||| n == 0x20
    ||| n == 0x85
    ||| n == 0xA0
    ||| n == 0x1680
    ||| 0x2000 <= n <= 0x200A
    ||| n == 0x2028
    ||| n == 0x2029
    ||| n == 0x202F
    ||| n == 0x205F
    ||| n == 0x3000
}

/// Whether `c` has the Unicode `White_Space` property (see
/// `spec_is_whitespace`).
fn char_is_whitespace(c: char) -> (b: bool)
    ensures
        b == spec_is_whitespace(c),
{
    let n = c as u32;
    (0x09 <= n && n <= 0x0D) || n == 0x20 || n == 0x85 || n == 0xA0 || n == 0x1680 || (0x2000 <= n && n
        <= 0x200A) || n == 0x2028 || n == 0x2029 || n == 0x202F || n == 0x205F || n == 0x3000
}

/// Draws a fresh random subscription id with `uuid::Uuid::new_v4`. Nothing is
/// promised of the value.
#[verifier::external_body]
fn random_subscription_id() -> u128 {
    uuid::Uuid::new_v4().as_u128()
}

/// A string that trims to nothing: every character is white space.
pub open spec fn is_blank(s: Seq<char>) -> bool {
    forall|i: int| 0 <= i < s.len() ==> spec_is_whitespace(#[trigger] s[i])
}

/// A URL whose scheme (the text before the first `:`) is `http` or `https`.
pub open spec fn has_http_scheme(url: Seq<char>) -> bool {
    ||| url.len() >= 5 && url.take(5) == seq!['h', 't', 't', 'p', ':']
    ||| url.len() >= 6 && url.take(6) == seq!['h', 't', 't', 'p', 's', ':']
}

/// Length in bytes of the UTF-8 encoding, as `str::len` reports it.
pub open spec fn byte_len(s: Seq<char>) -> usize {
    vstd::utf8::encode_utf8(s).len() as usize
}

/// A subscription of a callback URL to a contract's events.
#[derive(Debug, PartialEq, Eq)]
pub struct ContractSubscription {
    pub id: u128,
    pub contract_id: String,
    /// Empty means every event emitted by the contract.
    pub event_types: Vec<String>,
    /// Absolute URL, as `Url` serializes it.
    pub callback_url: String,
    /// Kept server-side and never serialized into delivery payloads.
    pub signing_secret: String,
    pub active: bool,
}

impl Clone for ContractSubscription {
    fn clone(&self) -> (c: Self)
        ensures
            c.id == self.id,
            c.contract_id == self.contract_id,
            c.event_types@ == self.event_types@,
            c.callback_url == self.callback_url,
            c.signing_secret == self.signing_secret,
            c.active == self.active,
    {
        let event_types = self.event_types.clone();
        proof {
            assert(event_types@ =~= self.event_types@);
        }
        ContractSubscription {
            id: self.id,
            contract_id: self.contract_id.clone(),
            event_types,
            callback_url: self.callback_url.clone(),
            signing_secret: self.signing_secret.clone(),
            active: self.active,
        }
    }
}

/// An event emitted by a contract.
#[derive(Debug)]
pub struct ContractEvent {
    pub id: u128,
    pub contract_id: String,
    pub event_type: String,
    pub ledger: u32,
    pub payload: serde_json::Value,
    /// When the event occurred: whole seconds since the Unix epoch (UTC).
    pub occurred_at_secs: i64,
    /// When the event occurred: nanoseconds past `occurred_at_secs`.
    pub occurred_at_nanos: u32,
}

/// A subscription receives an event when it is active, is for the event's
/// contract, and lists the event's type or lists none.
pub open spec fn spec_matches(s: ContractSubscription, contract_id: Seq<char>, event_type: Seq<char>) -> bool {
    &&& s.active
    &&& s.contract_id@ == contract_id
    &&& (s.event_types@.len() == 0 || exists|i: int| 0 <= i < s.event_types@.len() && #[trigger] s.event_types@[i]@ == event_type)
}

/// Which subscriptions receive an event: an inactive subscription never
/// does; a subscription never receives another contract's events; one that
/// lists event types receives only events of a listed type; and an active
/// subscription for the event's contract receives it when it lists no types
/// or lists the event's type.
pub proof fn lemma_matching_rules(s: ContractSubscription, contract_id: Seq<char>, event_type: Seq<char>)
    ensures
        !s.active ==> !spec_matches(s, contract_id, event_type),
        s.contract_id@ != contract_id ==> !spec_matches(s, contract_id, event_type),
        s.event_types@.len() > 0 && (forall|i: int| 0 <= i < s.event_types@.len() ==> s.event_types@[i]@ != event_type)
            ==> !spec_matches(s, contract_id, event_type),
        s.active && s.contract_id@ == contract_id && s.event_types@.len() == 0 ==> spec_matches(s, contract_id, event_type),
        forall|i: int|
            #![trigger s.event_types@[i]]
            s.active && s.contract_id@ == contract_id && 0 <= i < s.event_types@.len() && s.event_types@[i]@
                == event_type ==> spec_matches(s, contract_id, event_type),
{
}

/// Whether the string is nothing but white space.
fn trims_to_empty(s: &str) -> (b: bool)
    ensures
        b == is_blank(s@),
{
    let n = s.unicode_len();
    let mut i: usize = 0;
    while i < n
        invariant
            n == s@.len(),
            i <= n,
            forall|k: int| 0 <= k < i ==> spec_is_whitespace(#[trigger] s@[k]),
        decreases n - i,
    {
        if !char_is_whitespace(s.get_char(i)) {
            return false;
        }
        i += 1;
    }
    true
}

/// Whether `prefix` starts `s`.
fn starts_with_chars(s: &str, prefix: &[char]) -> (b: bool)
    ensures
        b == (s@.len() >= prefix@.len() && s@.take(prefix@.len() as int) == prefix@),
{
    let n = s.unicode_len();
    if n < prefix.len() {
        return false;
    }
    let mut i: usize = 0;
    while i < prefix.len()
        invariant
            n == s@.len(),
            prefix@.len() <= n,
            i <= prefix@.len(),
            forall|k: int| 0 <= k < i ==> s@[k] == prefix@[k],
        decreases prefix.len() - i,
    {
        if s.get_char(i) != prefix[i] {
            assert(s@.take(prefix@.len() as int)[i as int] != prefix@[i as int]);
            return false;
        }
        i += 1;
    }
    assert(s@.take(prefix@.len() as int) =~= prefix@);
    true
}

impl ContractSubscription {
    /// A new active subscription with a fresh random id. Refused when the
    /// contract id is blank, when the callback URL's scheme is neither
    /// `http` nor `https`, and when the signing secret is shorter than 32
    /// bytes, in that order.
    pub fn new(contract_id: String, event_types: Vec<String>, callback_url: String, signing_secret: String) -> (r: Result<Self, WebhookError>)
        ensures
            is_blank(contract_id@) ==> (r matches Err(WebhookError::InvalidSubscription(m)) && m@ == "contract_id cannot be empty"@),
            !is_blank(contract_id@) && !has_http_scheme(callback_url@) ==> (r matches Err(WebhookError::InvalidSubscription(m))
                && m@ == "callback_url must use http or https"@),
            !is_blank(contract_id@) && has_http_scheme(callback_url@) && byte_len(signing_secret@) < 32
                ==> (r matches Err(WebhookError::InvalidSubscription(m)) && m@ == "signing_secret must contain at least 32 bytes"@),
            r is Ok <==> !is_blank(contract_id@) && has_http_scheme(callback_url@) && byte_len(signing_secret@) >= 32,
            r matches Ok(s) ==> s.contract_id == contract_id && s.event_types == event_types && s.callback_url
                == callback_url && s.signing_secret == signing_secret && s.active,
    {
        if trims_to_empty(contract_id.as_str()) {
            return Err(WebhookError::InvalidSubscription("contract_id cannot be empty".to_string()));
        }
        let http = ['h', 't', 't', 'p', ':'];
        let https = ['h', 't', 't', 'p', 's', ':'];
        proof {
            assert(http@ =~= seq!['h', 't', 't', 'p', ':']);
            assert(https@ =~= seq!['h', 't', 't', 'p', 's', ':']);
        }
        if !(starts_with_chars(callback_url.as_str(), &http) || starts_with_chars(callback_url.as_str(), &https)) {
            return Err(WebhookError::InvalidSubscription("callback_url must use http or https".to_string()));
        }
        if signing_secret.as_str().len() < 32 {
            return Err(WebhookError::InvalidSubscription("signing_secret must contain at least 32 bytes".to_string()));
        }
        Ok(ContractSubscription {
            id: random_subscription_id(),
            contract_id,
            event_types,
            callback_url,
            signing_secret,
            active: true,
        })
    }

    /// Whether this subscription receives `event` (see `spec_matches`).
    pub fn matches(&self, event: &ContractEvent) -> (b: bool)
        ensures
            b == spec_matches(*self, event.contract_id@, event.event_type@),
    {
        if !self.active || !(self.contract_id == event.contract_id) {
            return false;
        }
        if self.event_types.len() == 0 {
            return true;
        }
        let mut i: usize = 0;
        while i < self.event_types.len()
            invariant
                i <= self.event_types@.len(),
                self.active,
                self.contract_id@ == event.contract_id@,
                forall|k: int| 0 <= k < i ==> #[trigger] self.event_types@[k]@ != event.event_type@,
            decreases self.event_types.len() - i,
        {
            if self.event_types[i] == event.event_type {
                return true;
            }
            i += 1;
        }
        false
    }
}

/// The registered subscriptions, by id.
pub struct SubscriptionRegistry {
    subscriptions: HashMap<u128, ContractSubscription>,
}

impl SubscriptionRegistry {
    pub closed spec fn view_map(&self) -> Map<u128, ContractSubscription> {
        self.subscriptions@
    }

    /// Each subscription is filed under its own id.
    pub closed spec fn wf(&self) -> bool {
        forall|id: u128| #[trigger] self.subscriptions@.contains_key(id) ==> self.subscriptions@[id].id == id
    }

    /// An empty registry.
    pub fn new() -> (r: Self)
        ensures
            r.wf(),
            r.view_map().is_empty(),
    {
        SubscriptionRegistry { subscriptions: HashMap::new() }
    }

    /// Registers `subscription` under its id, replacing one with the same id;
    /// returns the id.
    pub fn insert(&mut self, subscription: ContractSubscription) -> (id: u128)
        requires
            old(self).wf(),
        ensures
            final(self).wf(),
            id == subscription.id,
            final(self).view_map() == old(self).view_map().insert(id, subscription),
    {
        let id = subscription.id;
        self.subscriptions.insert(id, subscription);
        id
    }

    /// Unregisters the subscription with `id`, returning it.
    pub fn remove(&mut self, id: u128) -> (r: Option<ContractSubscription>)
        requires
            old(self).wf(),
        ensures
            final(self).wf(),
            final(self).view_map() == old(self).view_map().remove(id),
            r == (if old(self).view_map().contains_key(id) { Some(old(self).view_map()[id]) } else { None }),
    {
        self.subscriptions.remove(&id)
    }

    /// The registered subscriptions that receive `event`, each once, in no
    /// particular order.
    pub fn matching(&self, event: &ContractEvent) -> (r: Vec<ContractSubscription>)
        requires
            self.wf(),
        ensures
            forall|i: int| #![trigger r@[i]]
                0 <= i < r@.len() ==> {
                    &&& self.view_map().contains_key(r@[i].id)
                    &&& same_subscription(r@[i], self.view_map()[r@[i].id])
                    &&& spec_matches(r@[i], event.contract_id@, event.event_type@)
                },
            forall|id: u128| #[trigger]
                self.view_map().contains_key(id) && spec_matches(self.view_map()[id], event.contract_id@, event.event_type@)
                    ==> exists|i: int| 0 <= i < r@.len() && r@[i].id == id,
            forall|i: int, j: int| 0 <= i < j < r@.len() ==> r@[i].id != r@[j].id,
    {
        let mut result: Vec<ContractSubscription> = Vec::new();
        let ghost m = self.subscriptions@;
        for (id, subscription) in it: self.subscriptions.iter()
            invariant
                self.wf(),
                m == self.subscriptions@,
                it.seq().no_duplicates(),
                it.seq().len() == m.dom().len(),
                forall|i: int| 0 <= i < it.seq().len() ==> m.contains_key(*it.seq()[i].0) && m[*it.seq()[i].0] == *it.seq()[i].1,
                forall|k: u128| #[trigger] m.contains_key(k) ==> it.seq().contains((&k, &m[k])),
                forall|i: int| #![trigger result@[i]]
                    0 <= i < result@.len() ==> {
                        &&& m.contains_key(result@[i].id)
                        &&& same_subscription(result@[i], m[result@[i].id])
                        &&& spec_matches(result@[i], event.contract_id@, event.event_type@)
                        &&& exists|k: int| 0 <= k < it.index() && *it.seq()[k].0 == result@[i].id
                    },
                forall|k: int| #![trigger it.seq()[k]]
                    0 <= k < it.index() && spec_matches(*it.seq()[k].1, event.contract_id@, event.event_type@)
                        ==> exists|i: int| 0 <= i < result@.len() && result@[i].id == *it.seq()[k].0,
                forall|i: int, j: int| 0 <= i < j < result@.len() ==> result@[i].id != result@[j].id,
                it.index() == m.dom().len() ==> forall|id: u128| #[trigger]
                    m.contains_key(id) && spec_matches(m[id], event.contract_id@, event.event_type@)
                        ==> exists|i: int| 0 <= i < result@.len() && result@[i].id == id,
        {
            let ghost before = result@;
            if subscription.matches(event) {
                let copy = subscription.clone();
                proof {
                    let j = it.index();
                    assert(m[*it.seq()[j].0].id == *it.seq()[j].0);
                    assert forall|i: int| 0 <= i < result@.len() implies result@[i].id != copy.id by {
                        let k = choose|k: int| 0 <= k < it.index() && *it.seq()[k].0 == result@[i].id;
                        assert(it.seq()[k] != it.seq()[j]);
                        assert(m[*it.seq()[k].0].id == *it.seq()[k].0);
                    }
                }
                result.push(copy);
            }
            proof {
                let j = it.index();
                assert forall|i: int| 0 <= i < before.len() implies result@[i] == before[i] by {}
                assert(m[*it.seq()[j].0].id == *it.seq()[j].0);
                assert forall|k: int| #![trigger it.seq()[k]]
                    0 <= k < j + 1 && spec_matches(*it.seq()[k].1, event.contract_id@, event.event_type@)
                        implies exists|i: int| 0 <= i < result@.len() && result@[i].id == *it.seq()[k].0 by {
                    if k < j {
                        let i = choose|i: int| 0 <= i < before.len() && before[i].id == *it.seq()[k].0;
                        assert(result@[i].id == *it.seq()[k].0);
                    } else {
                        assert(result@[before.len() as int].id == *it.seq()[k].0);
                    }
                }
                if j + 1 == m.dom().len() {
                    assert forall|id: u128| #[trigger]
                        m.contains_key(id) && spec_matches(m[id], event.contract_id@, event.event_type@)
                            implies exists|i: int| 0 <= i < result@.len() && result@[i].id == id by {
                        assert(it.seq().contains((&id, &m[id])));
                        let k = choose|k: int| 0 <= k < it.seq().len() && it.seq()[k] == (&id, &m[id]);
                        if k < j {
                            assert(spec_matches(*it.seq()[k].1, event.contract_id@, event.event_type@));
                            let i = choose|i: int| 0 <= i < before.len() && before[i].id == *it.seq()[k].0;
                            assert(result@[i].id == id);
                        } else {
                            assert(k == j);
                            assert(result@[before.len() as int].id == id);
                        }
                    }
                }
            }
        }
        result
    }
}

/// Two subscriptions with the same fields (the event types compared by
/// content).
pub open spec fn same_subscription(a: ContractSubscription, b: ContractSubscription) -> bool {
    &&& a.id == b.id
    &&& a.contract_id@ == b.contract_id@
    &&& a.event_types@.len() == b.event_types@.len()
    &&& forall|i: int| 0 <= i < a.event_types@.len() ==> #[trigger] a.event_types@[i]@ == b.event_types@[i]@
    &&& a.callback_url@ == b.callback_url@
    &&& a.signing_secret@ == b.signing_secret@
    &&& a.active == b.active
}

// ── Signatures ────────────────────────────────────────────────

/// HMAC-SHA256 of `message` under `key`.
pub uninterp spec fn spec_hmac_sha256(key: Seq<u8>, message: Seq<u8>) -> Seq<u8>;

/// Computes HMAC-SHA256 with `hmac::Hmac<sha2::Sha256>`: `new_from_slice`
/// (which accepts keys of any length), one `update` with the whole message,
/// `finalize`. Trusted: the tag is the HMAC of the message under the key,
/// and 32 bytes long.
#[verifier::external_body]
fn hmac_sha256(key: &[u8], message: &[u8]) -> (tag: Vec<u8>)
    ensures
        tag@ == spec_hmac_sha256(key@, message@),
        tag@.len() == 32,
{
    let mut mac = <hmac::Hmac<sha2::Sha256> as hmac::Mac>::new_from_slice(key).expect("HMAC accepts signing keys of any size");
    hmac::Mac::update(&mut mac, message);
    hmac::Mac::finalize(mac).into_bytes().to_vec()
}

/// Checks a tag with `hmac::Mac::verify_slice` on a fresh
/// `Hmac<Sha256>` keyed with `key` and fed `message`. Trusted: it accepts
/// exactly the tag equal to the HMAC (of the same length, compared in
/// constant time).
#[verifier::external_body]
fn hmac_sha256_verify(key: &[u8], message: &[u8], tag: &[u8]) -> (ok: bool)
    ensures
        ok == (tag@ == spec_hmac_sha256(key@, message@)),
{
    let mut mac = <hmac::Hmac<sha2::Sha256> as hmac::Mac>::new_from_slice(key).expect("HMAC accepts signing keys of any size");
    hmac::Mac::update(&mut mac, message);
    hmac::Mac::verify_slice(mac, tag).is_ok()
}

/// Lowercase hexadecimal digit for a value below 16.
pub open spec fn hex_char(n: int) -> char {
    if n < 10 {
        (48 + n) as char
    } else {
        (87 + n) as char
    }
}

/// Lowercase hexadecimal text of the bytes, two digits per byte.
pub open spec fn spec_hex_encode(bytes: Seq<u8>) -> Seq<char>
    decreases bytes.len(),
{
    if bytes.len() == 0 {
        seq![]
    } else {
        spec_hex_encode(bytes.drop_last()) + seq![hex_char(bytes.last() as int / 16), hex_char(bytes.last() as int % 16)]
    }
}

/// Value of a hexadecimal digit byte, either case.
pub open spec fn hex_value(b: u8) -> Option<u8> {
    if 48 <= b <= 57 {
        Some((b - 48) as u8)
    } else if 97 <= b <= 102 {
        Some((b - 87) as u8)
    } else if 65 <= b <= 70 {
        Some((b - 55) as u8)
    } else {
        None
    }
}

/// Bytes of hexadecimal text; `None` for an odd length or a non-digit.
pub open spec fn spec_hex_decode(text: Seq<u8>) -> Option<Seq<u8>>
    decreases text.len(),
{
    if text.len() == 0 {
        Some(seq![])
    } else if text.len() == 1 {
        None
    } else {
        match (spec_hex_decode(text.subrange(0, text.len() - 2)), hex_value(text[text.len() - 2]), hex_value(text[text.len() - 1])) {
            (Some(prev), Some(hi), Some(lo)) => Some(prev.push((hi * 16 + lo) as u8)),
            _ => None,
        }
    }
}

/// Calls `hex::encode`, which writes lowercase digits.
#[verifier::external_body]
fn hex_encode(bytes: &[u8]) -> (text: String)
    ensures
        text@ == spec_hex_encode(bytes@),
{
    hex::encode(bytes)
}

/// Calls `hex::decode`, which accepts digits of either case and refuses an
/// odd length or any other byte.
#[verifier::external_body]
fn hex_decode(text: &[u8]) -> (bytes: Option<Vec<u8>>)
    ensures
        match bytes {
            Some(b) => spec_hex_decode(text@) == Some(b@),
            None => spec_hex_decode(text@) is None,
        },
{
    hex::decode(text).ok()
}

/// The signed text: the timestamp, a dot, the body.
pub open spec fn signed_message(timestamp: Seq<u8>, body: Seq<u8>) -> Seq<u8> {
    timestamp + seq![46u8] + body
}

/// The signature of `body` at `timestamp`: the lowercase hex HMAC-SHA256 of
/// the signed text under the secret.
pub open spec fn spec_sign(secret: Seq<u8>, timestamp: Seq<u8>, body: Seq<u8>) -> Seq<char> {
    spec_hex_encode(spec_hmac_sha256(secret, signed_message(timestamp, body)))
}

/// The bytes of `sha256=`.
pub open spec fn signature_prefix() -> Seq<u8> {
    seq![115u8, 104u8, 97u8, 50u8, 53u8, 54u8, 61u8]
}

/// A signature header is accepted when it is `sha256=` followed by the hex
/// text of the HMAC-SHA256 of the signed text.
pub open spec fn spec_verify(secret: Seq<u8>, timestamp: Seq<u8>, body: Seq<u8>, signature: Seq<u8>) -> bool {
    &&& signature.len() >= 7
    &&& signature.take(7) == signature_prefix()
    &&& match spec_hex_decode(signature.skip(7)) {
        Some(tag) => tag == spec_hmac_sha256(secret, signed_message(timestamp, body)),
        None => false,
    }
}

/// ASCII bytes of the lowercase hex text of `bytes`.
pub open spec fn hex_ascii(bytes: Seq<u8>) -> Seq<u8> {
    Seq::new(spec_hex_encode(bytes).len(), |i: int| spec_hex_encode(bytes)[i] as u8)
}

proof fn lemma_hex_encode_shape(bytes: Seq<u8>)
    ensures
        spec_hex_encode(bytes).len() == 2 * bytes.len(),
        vstd::utf8::is_ascii_chars(spec_hex_encode(bytes)),
        forall|i: int| 0 <= i < spec_hex_encode(bytes).len() ==> {
            let c = #[trigger] spec_hex_encode(bytes)[i] as u32;
            (48 <= c <= 57) || (97 <= c <= 102)
        },
    decreases bytes.len(),
{
    if bytes.len() > 0 {
        lemma_hex_encode_shape(bytes.drop_last());
        let prev = spec_hex_encode(bytes.drop_last());
        let hi = bytes.last() as int / 16;
        let lo = bytes.last() as int % 16;
        assert(spec_hex_encode(bytes) == prev + seq![hex_char(hi), hex_char(lo)]);
        assert forall|i: int| 0 <= i < spec_hex_encode(bytes).len() implies {
            let c = #[trigger] spec_hex_encode(bytes)[i] as u32;
            (48 <= c <= 57) || (97 <= c <= 102)
        } by {
            if i >= prev.len() {
                let n = if i == prev.len() { hi } else { lo };
                assert(spec_hex_encode(bytes)[i] == hex_char(n));
                assert(0 <= n < 16);
            }
        }
    }
}

proof fn lemma_hex_round_trip(bytes: Seq<u8>)
    ensures
        spec_hex_decode(hex_ascii(bytes)) == Some(bytes),
    decreases bytes.len(),
{
    lemma_hex_encode_shape(bytes);
    if bytes.len() == 0 {
        assert(hex_ascii(bytes) =~= seq![]);
        assert(bytes =~= seq![]);
    } else {
        let rest = bytes.drop_last();
        lemma_hex_round_trip(rest);
        lemma_hex_encode_shape(rest);
        let text = hex_ascii(bytes);
        let hi = bytes.last() as int / 16;
        let lo = bytes.last() as int % 16;
        assert(spec_hex_encode(bytes) == spec_hex_encode(rest) + seq![hex_char(hi), hex_char(lo)]);
        assert(text.subrange(0, text.len() - 2) =~= hex_ascii(rest));
        assert(text[text.len() - 2] == hex_char(hi) as u8);
        assert(text[text.len() - 1] == hex_char(lo) as u8);
        assert(hex_value(hex_char(hi) as u8) == Some(hi as u8));
        assert(hex_value(hex_char(lo) as u8) == Some(lo as u8));
        assert(rest.push((hi * 16 + lo) as u8) =~= bytes);
    }
}

/// The signature header value: `sha256=` followed by the signature.
pub open spec fn signature_header_chars(secret: Seq<u8>, timestamp: Seq<u8>, body: Seq<u8>) -> Seq<char> {
    seq!['s', 'h', 'a', '2', '5', '6', '='] + spec_sign(secret, timestamp, body)
}

/// A signature header made from `sign` is accepted by `verify` with the same
/// secret, timestamp and body.
pub proof fn lemma_sign_then_verify(secret: Seq<u8>, timestamp: Seq<u8>, body: Seq<u8>)
    ensures
        spec_verify(secret, timestamp, body, vstd::utf8::encode_utf8(signature_header_chars(secret, timestamp, body))),
{
    let tag = spec_hmac_sha256(secret, signed_message(timestamp, body));
    let chars = spec_hex_encode(tag);
    lemma_hex_encode_shape(tag);
    let prefix = seq!['s', 'h', 'a', '2', '5', '6', '='];
    let header_chars = signature_header_chars(secret, timestamp, body);
    assert(header_chars == prefix + chars);
    assert(vstd::utf8::is_ascii_chars(header_chars)) by {
        assert forall|i: int| 0 <= i < header_chars.len() implies '\0' <= #[trigger] header_chars[i] <= '\u{7f}' by {
            if i >= 7 {
                assert(header_chars[i] == chars[i - 7]);
                let c = chars[i - 7] as u32;
                assert((48 <= c <= 57) || (97 <= c <= 102));
            }
        }
    }
    vstd::utf8::is_ascii_chars_encode_utf8(header_chars);
    let header = vstd::utf8::encode_utf8(header_chars);
    assert(header.take(7) =~= signature_prefix());
    assert(header.skip(7) =~= hex_ascii(tag)) by {
        assert forall|i: int| 0 <= i < header.skip(7).len() implies header.skip(7)[i] == hex_ascii(tag)[i] by {
            assert(header[i + 7] == header_chars[i + 7] as u8);
            assert(header_chars[i + 7] == chars[i]);
        }
    }
    lemma_hex_round_trip(tag);
}

fn signed_message_bytes(timestamp: &str, body: &[u8]) -> (m: Vec<u8>)
    ensures
        m@ == signed_message(timestamp.spec_bytes(), body@),
{
    let mut message: Vec<u8> = Vec::new();
    let ts = timestamp.as_bytes();
    let mut i: usize = 0;
    while i < ts.len()
        invariant
            i <= ts@.len(),
            message@ == ts@.take(i as int),
        decreases ts.len() - i,
    {
        message.push(ts[i]);
        i += 1;
        assert(ts@.take(i as int) =~= ts@.take(i - 1).push(ts@[i - 1]));
    }
    message.push(46u8);
    let mut j: usize = 0;
    while j < body.len()
        invariant
            j <= body@.len(),
            message@ == ts@ + seq![46u8] + body@.take(j as int),
        decreases body.len() - j,
    {
        message.push(body[j]);
        j += 1;
        assert(body@.take(j as int) =~= body@.take(j - 1).push(body@[j - 1]));
    }
    assert(ts@.take(ts@.len() as int) =~= ts@);
    assert(body@.take(body@.len() as int) =~= body@);
    message
}

/// Signs `body` at `timestamp` with `secret`: the lowercase hex HMAC-SHA256
/// of `timestamp.body`.
pub fn sign(secret: &str, timestamp: &str, body: &[u8]) -> (signature: String)
    ensures
        signature@ == spec_sign(secret.spec_bytes(), timestamp.spec_bytes(), body@),
{
    let message = signed_message_bytes(timestamp, body);
    let tag = hmac_sha256(secret.as_bytes(), message.as_slice());
    hex_encode(tag.as_slice())
}

/// The value of the signature header for `body` at `timestamp`:
/// `sha256=` followed by `sign(secret, timestamp, body)`.
pub fn signature_header(secret: &str, timestamp: &str, body: &[u8]) -> (header: String)
    ensures
        header@ == signature_header_chars(secret.spec_bytes(), timestamp.spec_bytes(), body@),
{
    let mut header = "sha256=".to_string();
    proof {
        reveal_strlit("sha256=");
    }
    let signature = sign(secret, timestamp, body);
    header.append(signature.as_str());
    header
}

/// Checks a `sha256=<hex>` signature header against `body` at `timestamp`.
pub fn verify(secret: &str, timestamp: &str, body: &[u8], signature: &str) -> (ok: bool)
    ensures
        ok == spec_verify(secret.spec_bytes(), timestamp.spec_bytes(), body@, signature.spec_bytes()),
{
    let sig = signature.as_bytes();
    let prefix: [u8; 7] = [115u8, 104u8, 97u8, 50u8, 53u8, 54u8, 61u8];
    if sig.len() < 7 {
        return false;
    }
    let mut i: usize = 0;
    while i < 7
        invariant
            i <= 7,
            sig@.len() >= 7,
            sig@ == signature.spec_bytes(),
            prefix@ == signature_prefix(),
            forall|k: int| 0 <= k < i ==> sig@[k] == prefix@[k],
        decreases 7 - i,
    {
        if sig[i] != prefix[i] {
            assert(sig@.take(7)[i as int] != signature_prefix()[i as int]);
            return false;
        }
        i += 1;
    }
    assert(sig@.take(7) =~= signature_prefix());
    let rest = vstd::slice::slice_subrange(sig, 7, sig.len());
    assert(rest@ =~= sig@.skip(7));
    let decoded = match hex_decode(rest) {
        Some(d) => d,
        None => {
            return false;
        },
    };
    let message = signed_message_bytes(timestamp, body);
    hmac_sha256_verify(secret.as_bytes(), message.as_slice(), decoded.as_slice())
}

// ── Delivery ──────────────────────────────────────────────────

/// A 2xx status.
pub open spec fn is_success_status(status: u16) -> bool {
    200 <= status <= 299
}

/// Server errors, request timeouts and rate limiting are worth retrying.
pub open spec fn spec_is_retryable(status: u16) -> bool {
    (500 <= status <= 599) || status == 408 || status == 429
}

/// Whether a response with this status is worth retrying.
pub fn is_retryable(status: u16) -> (b: bool)
    ensures
        b == spec_is_retryable(status),
{
    (500 <= status && status <= 599) || status == 408 || status == 429
}

/// What came of one delivery attempt.
pub enum DeliveryOutcome {
    /// The endpoint answered with `status`; `status_text` is its display form
    /// (such as `503 Service Unavailable`).
    Response { status: u16, status_text: String },
    /// The request failed before a response; the error's text.
    TransportError(String),
}

/// What the delivery loop does next.
pub enum DeliveryStep {
    /// Wait `delay`, then send the next attempt.
    Retry { delay: Duration },
    /// Stop with this result.
    Done(Result<(), WebhookError>),
}

/// Number of attempts a delivery makes at most: `max_attempts`, at least one.
pub open spec fn attempt_limit(config: WebhookConfig) -> u32 {
    if config.max_attempts > 1 { config.max_attempts } else { 1 }
}

/// Progress of delivering one event to one subscription.
pub struct Delivery {
    attempt: u32,
    last_error: String,
}

impl Delivery {
    pub closed spec fn attempt_view(&self) -> u32 {
        self.attempt
    }

    pub closed spec fn last_error_view(&self) -> Seq<char> {
        self.last_error@
    }

    /// A delivery about to send its first attempt.
    pub fn new() -> (d: Self)
        ensures
            d.attempt_view() == 1,
            d.last_error_view() == "delivery was not attempted"@,
    {
        Delivery { attempt: 1, last_error: "delivery was not attempted".to_string() }
    }

    /// The number of the attempt being sent.
    pub fn attempt(&self) -> (a: u32)
        ensures
            a == self.attempt_view(),
    {
        self.attempt
    }

    /// Records the outcome of the current attempt. A 2xx response ends the
    /// delivery successfully; any other response is recorded as
    /// `HTTP <status>` and ends it when not retryable; a transport error is
    /// recorded as is. A retryable failure is followed by a wait of
    /// `retry_delay(attempt)` and the next attempt while the attempt limit is
    /// not reached; otherwise the delivery fails with the attempt count and
    /// the last error.
    pub fn record(&mut self, config: &WebhookConfig, outcome: DeliveryOutcome) -> (step: DeliveryStep)
        requires
            1 <= old(self).attempt_view() <= attempt_limit(*config),
        ensures
            match outcome {
                DeliveryOutcome::Response { status, status_text } => if is_success_status(status) {
                    step matches DeliveryStep::Done(Ok(()))
                } else {
                    final(self).last_error_view() == "HTTP "@ + status_text@
                },
                DeliveryOutcome::TransportError(text) => final(self).last_error_view() == text@,
            },
            step matches DeliveryStep::Retry { delay } ==> {
                &&& old(self).attempt_view() < config.max_attempts
                &&& final(self).attempt_view() == old(self).attempt_view() + 1
                &&& duration_nanos(delay) == spec_retry_delay_nanos(
                    duration_nanos(config.retry_base),
                    duration_nanos(config.retry_max),
                    old(self).attempt_view(),
                )
                &&& match outcome {
                    DeliveryOutcome::Response { status, .. } => !is_success_status(status) && spec_is_retryable(status),
                    DeliveryOutcome::TransportError(_) => true,
                }
            },
            step matches DeliveryStep::Done(Err(e)) ==> e matches WebhookError::DeliveryFailed { attempts, reason }
                && attempts == old(self).attempt_view() && reason@ == final(self).last_error_view(),
            match outcome {
                DeliveryOutcome::Response { status, .. } => (!is_success_status(status) && !spec_is_retryable(status))
                    ==> step matches DeliveryStep::Done(Err(_)),
                DeliveryOutcome::TransportError(_) => true,
            },
            (match outcome {
                DeliveryOutcome::Response { status, .. } => !is_success_status(status) && spec_is_retryable(status),
                DeliveryOutcome::TransportError(_) => true,
            }) ==> (old(self).attempt_view() < config.max_attempts <==> step is Retry),
            !(outcome matches DeliveryOutcome::Response { status, .. } && is_success_status(status))
                ==> !(step matches DeliveryStep::Done(Ok(_))),
            !(outcome matches DeliveryOutcome::Response { status, .. } && is_success_status(status))
                && !(step is Retry) ==> (step matches DeliveryStep::Done(Err(WebhookError::DeliveryFailed { attempts, .. }))
                && attempts == old(self).attempt_view()),
    {
        let attempt = self.attempt;
        match outcome {
            DeliveryOutcome::Response { status, status_text } => {
                if 200 <= status && status <= 299 {
                    return DeliveryStep::Done(Ok(()));
                }
                let mut text = "HTTP ".to_string();
                text.append(status_text.as_str());
                self.last_error = text;
                if !is_retryable(status) {
                    return DeliveryStep::Done(Err(WebhookError::DeliveryFailed { attempts: attempt, reason: self.last_error.clone() }));
                }
            },
            DeliveryOutcome::TransportError(text) => {
                self.last_error = text;
            },
        }
        if attempt < config.max_attempts {
            self.attempt = attempt + 1;
            return DeliveryStep::Retry { delay: config.retry_delay(attempt) };
        }
        DeliveryStep::Done(Err(WebhookError::DeliveryFailed { attempts: attempt, reason: self.last_error.clone() }))
    }
}
}
