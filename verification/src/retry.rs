//! Opt-in retries for transient failures: connection errors and a
//! configurable set of response statuses.
//!
//! Delays are stated in nanoseconds. Chance enters as a number that the
//! caller draws, and time as the clock's reading in nanoseconds since the
//! Unix epoch, negative before it.

use crate::date;
use crate::error::Error;
use crate::header;
use crate::header::HeaderMap;
use crate::method::Method;
use crate::platform;
use crate::platform::MAX_DURATION_NANOS;
use crate::rand;
use crate::response::Response;
use crate::text;
use std::time::Duration;
use vstd::prelude::*;

verus! {

/// How long to wait before the next attempt.
#[derive(Debug, Clone, Copy)]
pub enum Backoff {
    /// The same delay before every retry.
    Fixed(Duration),
    /// `base * 2^attempt`, at most `max`. With `jitter`, a part of that
    /// which chance picks, so that clients that failed together do not all
    /// come back together.
    Exponential { base: Duration, max: Duration, jitter: bool },
}

pub open spec fn smaller(a: int, b: int) -> int {
    if a <= b {
        a
    } else {
        b
    }
}

/// The delay that an exponential backoff would have without jitter.
pub open spec fn capped_nanos(base: Duration, max: Duration, attempt: usize) -> int {
    smaller(
        platform::duration_nanos(base) * vstd::arithmetic::power2::pow2(attempt as nat),
        platform::duration_nanos(max) as int,
    )
}

/// The part of a delay that chance picks: from nothing up to, but not
/// including, the whole (or the longest delay that 64 bits can count).
pub open spec fn jittered_nanos(nanos: int, chance: u64) -> int {
    chance * smaller(nanos, u64::MAX as int) / 0x1_0000_0000_0000_0000
}

/// The delay before retry number `attempt`, counted from zero.
pub open spec fn backoff_nanos(backoff: Backoff, attempt: usize, chance: u64) -> int {
    match backoff {
        Backoff::Fixed(d) => platform::duration_nanos(d) as int,
        Backoff::Exponential { base, max, jitter } => if jitter {
            jittered_nanos(capped_nanos(base, max, attempt), chance)
        } else {
            capped_nanos(base, max, attempt)
        },
    }
}

/// The longest delay that a backoff can give.
pub open spec fn backoff_cap(backoff: Backoff) -> int {
    match backoff {
        Backoff::Fixed(d) => platform::duration_nanos(d) as int,
        Backoff::Exponential { max, .. } => platform::duration_nanos(max) as int,
    }
}

/// No delay is longer than the backoff's cap, whatever the attempt and
/// whatever chance picks.
pub proof fn law_backoff_keeps_to_its_cap(backoff: Backoff, attempt: usize, chance: u64)
    ensures
        0 <= backoff_nanos(backoff, attempt, chance) <= backoff_cap(backoff),
{
    if let Backoff::Exponential { base, max, jitter } = backoff {
        vstd::arithmetic::power2::lemma_pow2_pos(attempt as nat);
        let (b, f) = (
            platform::duration_nanos(base) as int,
            vstd::arithmetic::power2::pow2(attempt as nat) as int,
        );
        assert(b * f >= 0) by (nonlinear_arith)
            requires
                b >= 0,
                f > 0,
        ;
        lemma_jitter(capped_nanos(base, max, attempt), chance);
    }
}

/// Without jitter, each delay is twice the one before it, until the cap is
/// reached.
pub proof fn law_delays_double(base: Duration, max: Duration, attempt: usize, chance: u64)
    requires
        attempt < usize::MAX,
        2 * backoff_nanos(Backoff::Exponential { base, max, jitter: false }, attempt, chance)
            <= platform::duration_nanos(max),
    ensures
        backoff_nanos(
            Backoff::Exponential { base, max, jitter: false },
            (attempt + 1) as usize,
            chance,
        ) == 2 * backoff_nanos(
            Backoff::Exponential { base, max, jitter: false },
            attempt,
            chance,
        ),
{
    vstd::arithmetic::power2::lemma_pow2_unfold((attempt + 1) as nat);
    let (b, f) = (
        platform::duration_nanos(base) as int,
        vstd::arithmetic::power2::pow2(attempt as nat) as int,
    );
    assert(b * (2 * f) == 2 * (b * f)) by (nonlinear_arith);
    assert(platform::duration_nanos(max) >= 0);
    if b * f > platform::duration_nanos(max) {
        assert(platform::duration_nanos(max) == 0);
    }
}

/// With jitter, a delay is shorter than it would be without, unless that is
/// nothing.
pub proof fn law_jitter_shortens(nanos: int, chance: u64)
    requires
        0 < nanos,
    ensures
        0 <= jittered_nanos(nanos, chance) < nanos,
{
    lemma_jitter(nanos, chance);
}

proof fn lemma_jitter(nanos: int, chance: u64)
    requires
        0 <= nanos,
    ensures
        0 <= jittered_nanos(nanos, chance) <= nanos,
        0 < nanos ==> jittered_nanos(nanos, chance) < nanos,
        jittered_nanos(nanos, chance) <= u64::MAX,
        chance * smaller(nanos, u64::MAX as int) <= u128::MAX,
{
    let m = smaller(nanos, u64::MAX as int);
    let c = chance as int;
    assert(0 <= c * m && c * m <= 0xffff_ffff_ffff_ffff * m) by (nonlinear_arith)
        requires
            0 <= c <= 0xffff_ffff_ffff_ffff,
            0 <= m,
    ;
}

impl Backoff {
    pub fn fixed(delay: Duration) -> (backoff: Self)
        ensures
            backoff == Backoff::Fixed(delay),
    {
        Backoff::Fixed(delay)
    }

    /// Exponential backoff with jitter.
    pub fn exponential(base: Duration, max: Duration) -> (backoff: Self)
        ensures
            backoff == (Backoff::Exponential { base, max, jitter: true }),
    {
        Backoff::Exponential { base, max, jitter: true }
    }

    pub fn exponential_no_jitter(base: Duration, max: Duration) -> (backoff: Self)
        ensures
            backoff == (Backoff::Exponential { base, max, jitter: false }),
    {
        Backoff::Exponential { base, max, jitter: false }
    }

    /// The delay before retry number `attempt`, counted from zero; chance
    /// picks where there is jitter.
    pub fn delay_for(&self, attempt: usize) -> (delay: Duration)
        ensures
            exists|chance: u64|
                platform::duration_nanos(delay) == #[trigger] backoff_nanos(
                    *self,
                    attempt,
                    chance,
                ),
            !(self matches Backoff::Exponential { jitter: true, .. })
                ==> platform::duration_nanos(delay) == backoff_nanos(*self, attempt, 0),
    {
        let chance = match self {
            Backoff::Exponential { jitter: true, .. } => rand::next_u64(),
            _ => 0,
        };
        self.delay_with(attempt, chance)
    }

    /// The delay before retry number `attempt`, where chance has picked
    /// `chance`.
    pub fn delay_with(&self, attempt: usize, chance: u64) -> (delay: Duration)
        ensures
            platform::duration_nanos(delay) == backoff_nanos(*self, attempt, chance),
    {
        match *self {
            Backoff::Fixed(d) => d,
            Backoff::Exponential { base, max, jitter } => {
                let capped = doubled(base, max, attempt);
                if jitter {
                    jittered(capped, chance)
                } else {
                    capped
                }
            },
        }
    }
}

/// Doubling on from a product that is at least `cap`, or nothing, changes
/// nothing about the smaller of the two.
proof fn lemma_doubling_is_done(base: int, cap: int, done: nat, attempt: nat)
    requires
        0 <= base,
        done <= attempt,
        base * vstd::arithmetic::power2::pow2(done) >= cap || base
            * vstd::arithmetic::power2::pow2(done) == 0,
    ensures
        smaller(base * vstd::arithmetic::power2::pow2(attempt), cap) == smaller(
            base * vstd::arithmetic::power2::pow2(done),
            cap,
        ),
{
    let (f, g) = (
        vstd::arithmetic::power2::pow2(done) as int,
        vstd::arithmetic::power2::pow2(attempt) as int,
    );
    vstd::arithmetic::power2::lemma_pow2_pos(done);
    if done < attempt {
        vstd::arithmetic::power2::lemma_pow2_strictly_increases(done, attempt);
    }
    assert(base * f <= base * g) by (nonlinear_arith)
        requires
            0 <= base,
            f <= g,
    ;
    assert(base * f == 0 ==> base * g == 0) by (nonlinear_arith)
        requires
            0 <= base,
            0 < f,
    ;
}

/// `base * 2^attempt`, at most `max`. The doubling ends where it reaches
/// `max`, and where there is nothing to double.
fn doubled(base: Duration, max: Duration, attempt: usize) -> (delay: Duration)
    ensures
        platform::duration_nanos(delay) == capped_nanos(base, max, attempt),
{
    let ghost b = platform::duration_nanos(base) as int;
    let max_nanos = max.as_nanos();
    let mut delay = base;
    let mut nanos = base.as_nanos();
    let mut done: usize = 0;
    proof {
        vstd::arithmetic::power2::lemma2_to64();
    }
    while done < attempt && nanos < max_nanos && nanos > 0
        invariant
            done <= attempt,
            b == platform::duration_nanos(base),
            max_nanos == platform::duration_nanos(max),
            max_nanos <= MAX_DURATION_NANOS,
            nanos == platform::duration_nanos(delay),
            nanos == b * vstd::arithmetic::power2::pow2(done as nat),
        decreases attempt - done,
    {
        proof {
            let f = vstd::arithmetic::power2::pow2(done as nat) as int;
            vstd::arithmetic::power2::lemma_pow2_unfold((done + 1) as nat);
            assert(b * (2 * f) == (b * f) * 2) by (nonlinear_arith);
        }
        match delay.checked_mul(2) {
            Some(product) => {
                delay = product;
                nanos = delay.as_nanos();
                done = done + 1;
            },
            None => {
                proof {
                    lemma_doubling_is_done(b, max_nanos as int, (done + 1) as nat, attempt as nat);
                }
                return max;
            },
        }
    }
    proof {
        if done < attempt {
            lemma_doubling_is_done(b, max_nanos as int, done as nat, attempt as nat);
        }
    }
    if nanos < max_nanos {
        delay
    } else {
        max
    }
}

fn jittered(max: Duration, chance: u64) -> (delay: Duration)
    ensures
        platform::duration_nanos(delay) == jittered_nanos(
            platform::duration_nanos(max) as int,
            chance,
        ),
{
    let nanos = max.as_nanos();
    let most: u128 = if nanos < 0xffff_ffff_ffff_ffff {
        nanos
    } else {
        0xffff_ffff_ffff_ffff
    };
    proof {
        lemma_jitter(nanos as int, chance);
    }
    let product: u128 = chance as u128 * most;
    Duration::from_nanos((product / 0x1_0000_0000_0000_0000) as u64)
}

/// A retry policy. No request is retried without one.
#[derive(Debug)]
pub struct RetryPolicy {
    pub max_retries: usize,
    pub backoff: Backoff,
    pub retry_statuses: Vec<u16>,
    pub retry_io_errors: bool,
    pub retry_non_idempotent: bool,
    pub respect_retry_after: bool,
    pub max_retry_after: Duration,
}

/// What a [`RetryPolicy`] stands for.
#[verifier::ext_equal]
pub struct RetryView {
    pub max_retries: usize,
    pub backoff: Backoff,
    pub retry_statuses: Seq<u16>,
    pub retry_io_errors: bool,
    pub retry_non_idempotent: bool,
    pub respect_retry_after: bool,
    pub max_retry_after: Duration,
}

impl View for RetryPolicy {
    type V = RetryView;

    open spec fn view(&self) -> RetryView {
        RetryView {
            max_retries: self.max_retries,
            backoff: self.backoff,
            retry_statuses: self.retry_statuses@,
            retry_io_errors: self.retry_io_errors,
            retry_non_idempotent: self.retry_non_idempotent,
            respect_retry_after: self.respect_retry_after,
            max_retry_after: self.max_retry_after,
        }
    }
}

impl Clone for RetryPolicy {
    fn clone(&self) -> (copy: Self)
        ensures
            copy@ == self@,
    {
        RetryPolicy {
            max_retries: self.max_retries,
            backoff: self.backoff,
            retry_statuses: vstd::slice::slice_to_vec(self.retry_statuses.as_slice()),
            retry_io_errors: self.retry_io_errors,
            retry_non_idempotent: self.retry_non_idempotent,
            respect_retry_after: self.respect_retry_after,
            max_retry_after: self.max_retry_after,
        }
    }
}

/// Methods that can be repeated without doing more than once would.
pub open spec fn is_idempotent(method: Method) -> bool {
    method is Get || method is Head || method is Put || method is Delete || method is Options
}

/// The delay that a `Retry-After` value asks for: so many seconds, or the
/// time until a date.
pub open spec fn asked_nanos(value: Seq<char>, now: i128) -> Option<int> {
    let v = text::trimmed(value);
    match text::bounded_value(v, 10, u64::MAX as nat) {
        Some(secs) => Some((secs * 1_000_000_000) as int),
        None => match date::http_date(v) {
            Some(deadline) => Some(
                if deadline * 1_000_000_000 <= now {
                    0
                } else {
                    smaller(deadline * 1_000_000_000 - now, MAX_DURATION_NANOS as int)
                },
            ),
            None => None,
        },
    }
}

/// The delay that a response asks for, as far as the policy grants it.
pub open spec fn granted_nanos(
    policy: RetryPolicy,
    headers: Seq<(Seq<char>, Seq<char>)>,
    now: i128,
) -> Option<int> {
    if !policy.respect_retry_after {
        None
    } else {
        match header::lookup(headers, "retry-after"@) {
            None => None,
            Some(value) => match asked_nanos(value, now) {
                Some(nanos) => Some(
                    smaller(nanos, platform::duration_nanos(policy.max_retry_after) as int),
                ),
                None => None,
            },
        }
    }
}

/// What an optional delay comes to in nanoseconds.
pub open spec fn delay_view(delay: Option<Duration>) -> Option<int> {
    match delay {
        Some(d) => Some(platform::duration_nanos(d) as int),
        None => None,
    }
}

/// A server never makes a client wait longer than the policy grants.
pub proof fn law_granted_delay_is_capped(
    policy: RetryPolicy,
    headers: Seq<(Seq<char>, Seq<char>)>,
    now: i128,
)
    ensures
        granted_nanos(policy, headers, now) matches Some(nanos) ==> 0 <= nanos
            <= platform::duration_nanos(policy.max_retry_after),
{
}

impl RetryPolicy {
    /// Up to `max_retries` further attempts after the first. Backoff is
    /// exponential (200ms base, 10s cap, with jitter); connection errors and
    /// the statuses 429, 500, 502, 503 and 504 are retried, for idempotent
    /// methods only; `Retry-After` is respected up to 60s.
    pub fn new(max_retries: usize) -> (policy: Self)
        ensures
            policy.max_retries == max_retries,
            policy.backoff matches Backoff::Exponential { base, max, jitter } && jitter
                && platform::duration_nanos(base) == 200_000_000 && platform::duration_nanos(max)
                == 10_000_000_000,
            policy.retry_statuses@ == seq![429u16, 500u16, 502u16, 503u16, 504u16],
            policy.retry_io_errors,
            !policy.retry_non_idempotent,
            policy.respect_retry_after,
            platform::duration_nanos(policy.max_retry_after) == 60_000_000_000,
    {
        let mut retry_statuses: Vec<u16> = Vec::new();
        retry_statuses.push(429);
        retry_statuses.push(500);
        retry_statuses.push(502);
        retry_statuses.push(503);
        retry_statuses.push(504);
        RetryPolicy {
            max_retries,
            backoff: Backoff::exponential(Duration::from_millis(200), Duration::from_secs(10)),
            retry_statuses,
            retry_io_errors: true,
            retry_non_idempotent: false,
            respect_retry_after: true,
            max_retry_after: Duration::from_secs(60),
        }
    }

    pub fn backoff(self, backoff: Backoff) -> (policy: Self)
        ensures
            policy == (RetryPolicy { backoff, ..self }),
    {
        RetryPolicy { backoff, ..self }
    }

    /// Replaces the set of retried statuses.
    pub fn retry_statuses(self, statuses: Vec<u16>) -> (policy: Self)
        ensures
            policy == (RetryPolicy { retry_statuses: statuses, ..self }),
    {
        RetryPolicy { retry_statuses: statuses, ..self }
    }

    /// Also retries methods that are not idempotent: a repeated request may
    /// then repeat what it does.
    pub fn retry_non_idempotent(self) -> (policy: Self)
        ensures
            policy == (RetryPolicy { retry_non_idempotent: true, ..self }),
    {
        RetryPolicy { retry_non_idempotent: true, ..self }
    }

    /// Does not retry connection errors.
    pub fn no_io_retry(self) -> (policy: Self)
        ensures
            policy == (RetryPolicy { retry_io_errors: false, ..self }),
    {
        RetryPolicy { retry_io_errors: false, ..self }
    }

    /// Ignores `Retry-After`.
    pub fn ignore_retry_after(self) -> (policy: Self)
        ensures
            policy == (RetryPolicy { respect_retry_after: false, ..self }),
    {
        RetryPolicy { respect_retry_after: false, ..self }
    }

    /// Caps how long `Retry-After` may delay a retry.
    pub fn max_retry_after(self, max: Duration) -> (policy: Self)
        ensures
            policy == (RetryPolicy { max_retry_after: max, ..self }),
    {
        RetryPolicy { max_retry_after: max, ..self }
    }

    pub fn max_retries(&self) -> (n: usize)
        ensures
            n == self.max_retries,
    {
        self.max_retries
    }

    /// Whether requests with this method are retried at all.
    pub fn allows_method(&self, method: &Method) -> (yes: bool)
        ensures
            yes == (self.retry_non_idempotent || is_idempotent(*method)),
    {
        self.retry_non_idempotent || match method {
            Method::Get | Method::Head | Method::Put | Method::Delete | Method::Options => true,
            _ => false,
        }
    }

    /// Whether a response with this status is retried.
    pub fn should_retry_status(&self, status: u16) -> (yes: bool)
        ensures
            yes == self.retry_statuses@.contains(status),
    {
        for i in 0..self.retry_statuses.len()
            invariant
                forall|j: int| 0 <= j < i ==> self.retry_statuses@[j] != status,
        {
            if self.retry_statuses[i] == status {
                return true;
            }
        }
        false
    }

    /// Whether a request that failed with this error is retried.
    pub fn should_retry_error(&self, error: &Error) -> (yes: bool)
        ensures
            yes == (self.retry_io_errors && error is Io),
    {
        self.retry_io_errors && match error {
            Error::Io(_) => true,
            _ => false,
        }
    }

    /// The delay that a response asks for as of the clock's time, as far as
    /// the policy grants it.
    pub fn retry_after(&self, headers: &HeaderMap) -> (delay: Option<Duration>)
        ensures
            exists|now: i128|
                platform::clock_shows(now) && delay_view(delay) == #[trigger] granted_nanos(
                    *self,
                    headers@,
                    now,
                ),
    {
        self.retry_after_at(headers, platform::unix_nanos())
    }

    /// The delay that a response asks for at `now`, as far as the policy
    /// grants it.
    pub fn retry_after_at(&self, headers: &HeaderMap, now: i128) -> (delay: Option<Duration>)
        ensures
            delay_view(delay) == granted_nanos(*self, headers@, now),
    {
        if !self.respect_retry_after {
            return None;
        }
        match headers.get("retry-after") {
            None => None,
            Some(value) => match parse_retry_after_at(value, now) {
                None => None,
                Some(asked) => if asked.as_nanos() <= self.max_retry_after.as_nanos() {
                    Some(asked)
                } else {
                    Some(self.max_retry_after)
                },
            },
        }
    }

    /// The delay before the next attempt: what the server asks for, or else
    /// what the backoff says.
    pub fn delay_for(&self, attempt: usize, retry_after: Option<Duration>) -> (delay: Duration)
        ensures
            retry_after matches Some(asked) ==> delay == asked,
            retry_after is None ==> exists|chance: u64|
                platform::duration_nanos(delay) == #[trigger] backoff_nanos(
                    self.backoff,
                    attempt,
                    chance,
                ),
    {
        match retry_after {
            Some(asked) => asked,
            None => self.backoff.delay_for(attempt),
        }
    }

    /// The delay before the next attempt, where chance has picked `chance`.
    pub fn delay_with(&self, attempt: usize, retry_after: Option<Duration>, chance: u64) -> (delay:
        Duration)
        ensures
            platform::duration_nanos(delay) == match retry_after {
                Some(asked) => platform::duration_nanos(asked) as int,
                None => backoff_nanos(self.backoff, attempt, chance),
            },
    {
        match retry_after {
            Some(asked) => asked,
            None => self.backoff.delay_with(attempt, chance),
        }
    }
}

/// What an attempt came to, as far as retries care.
pub enum Attempt {
    /// A response with this status.
    Responded(u16),
    /// A connection error.
    Disconnected,
    /// Another error.
    Refused,
}

/// What the outcome of an attempt came to.
pub open spec fn attempt_view(outcome: std::result::Result<Response, Error>) -> Attempt {
    match outcome {
        Ok(response) => Attempt::Responded(response.status.code),
        Err(Error::Io(_)) => Attempt::Disconnected,
        Err(_) => Attempt::Refused,
    }
}

/// Whether there is another attempt after attempt number `attempt`, counted
/// from zero.
pub open spec fn retried(policy: RetryPolicy, attempt: int, method: Method, came_to: Attempt) -> bool {
    &&& match came_to {
        Attempt::Responded(status) => policy.retry_statuses@.contains(status),
        Attempt::Disconnected => policy.retry_io_errors,
        Attempt::Refused => false,
    }
    &&& policy.retry_non_idempotent || is_idempotent(method)
    &&& attempt < policy.max_retries
}

/// The delay before the next attempt.
pub open spec fn retry_delay(
    policy: RetryPolicy,
    attempt: usize,
    outcome: std::result::Result<Response, Error>,
    now: i128,
    chance: u64,
) -> int {
    let granted = match outcome {
        Ok(response) => granted_nanos(policy, response.headers@, now),
        Err(_) => None,
    };
    match granted {
        Some(nanos) => nanos,
        None => backoff_nanos(policy.backoff, attempt, chance),
    }
}

/// There are never more attempts than the policy allows: after the first, at
/// most `max_retries`.
pub proof fn law_attempts_are_capped(policy: RetryPolicy, method: Method, attempts: Seq<Attempt>)
    requires
        forall|i: int|
            0 <= i < attempts.len() ==> retried(policy, i, method, #[trigger] attempts[i]),
    ensures
        attempts.len() <= policy.max_retries,
{
    if attempts.len() > 0 {
        let n = attempts.len() - 1;
        assert(retried(policy, n, method, attempts[n]));
    }
}

/// A request that is not idempotent is never repeated unless the policy says
/// so in so many words.
pub proof fn law_side_effects_are_not_repeated(
    policy: RetryPolicy,
    attempt: int,
    method: Method,
    came_to: Attempt,
)
    requires
        !policy.retry_non_idempotent,
        method is Post || method is Patch,
    ensures
        !retried(policy, attempt, method, came_to),
{
}

/// What to do after an attempt.
pub enum RetryStep {
    /// Its outcome stands.
    Finish,
    /// Wait, and try again.
    Wait(Duration),
}

/// A policy and the number of retries so far.
#[derive(Debug)]
pub struct RetryState {
    pub policy: RetryPolicy,
    pub attempt: usize,
}

impl RetryState {
    pub fn new(policy: RetryPolicy) -> (state: Self)
        ensures
            state == (RetryState { policy, attempt: 0 }),
    {
        RetryState { policy, attempt: 0 }
    }

    /// What to do after an attempt, at `now`, where chance has picked
    /// `chance`.
    pub fn after(
        &mut self,
        method: Method,
        outcome: &std::result::Result<Response, Error>,
        now: i128,
        chance: u64,
    ) -> (step: RetryStep)
        ensures
            final(self).policy == old(self).policy,
            match step {
                RetryStep::Finish => !retried(
                    old(self).policy,
                    old(self).attempt as int,
                    method,
                    attempt_view(*outcome),
                ) && final(self).attempt == old(self).attempt,
                RetryStep::Wait(delay) => retried(
                    old(self).policy,
                    old(self).attempt as int,
                    method,
                    attempt_view(*outcome),
                ) && final(self).attempt == old(self).attempt + 1 && platform::duration_nanos(delay)
                    == retry_delay(
                    old(self).policy,
                    old(self).attempt,
                    *outcome,
                    now,
                    chance,
                ),
            },
    {
        let (should_retry, retry_after) = match outcome {
            Ok(response) => (
                self.policy.should_retry_status(response.status().as_u16()),
                self.policy.retry_after_at(response.headers(), now),
            ),
            Err(e) => (self.policy.should_retry_error(e), None),
        };
        if !should_retry || !self.policy.allows_method(&method) || self.attempt
            >= self.policy.max_retries() {
            return RetryStep::Finish;
        }
        let delay = self.policy.delay_with(self.attempt, retry_after, chance);
        self.attempt = self.attempt + 1;
        RetryStep::Wait(delay)
    }
}

/// The delay that a `Retry-After` value asks for as of the clock's time.
pub fn parse_retry_after(value: &str) -> (delay: Option<Duration>)
    ensures
        exists|now: i128|
            platform::clock_shows(now) && delay_view(delay) == #[trigger] asked_nanos(value@, now),
{
    parse_retry_after_at(value, platform::unix_nanos())
}

/// The delay that a `Retry-After` value asks for at `now`.
pub fn parse_retry_after_at(value: &str, now: i128) -> (delay: Option<Duration>)
    ensures
        delay_view(delay) == asked_nanos(value@, now),
{
    let chars = text::chars_of(value);
    let trimmed = text::trim(chars.as_slice());
    if let Some(secs) = text::read_unsigned(trimmed, 10, u64::MAX) {
        return Some(Duration::from_secs(secs));
    }
    match date::parse_http_date(text::text_of(trimmed).as_str()) {
        None => None,
        Some(deadline) => {
            let at: i128 = (deadline * 1_000_000_000) as i128;
            if at <= now {
                Some(Duration::from_secs(0))
            } else if now >= 0 {
                Some(duration_of((at - now) as u128))
            } else {
                let before_epoch: u128 = (0 - (now + 1)) as u128 + 1;
                Some(duration_of(at as u128 + before_epoch))
            }
        },
    }
}

/// A duration of so many nanoseconds, or the longest there is.
fn duration_of(nanos: u128) -> (d: Duration)
    ensures
        platform::duration_nanos(d) == smaller(nanos as int, MAX_DURATION_NANOS as int),
{
    if nanos > MAX_DURATION_NANOS {
        Duration::new(u64::MAX, 999_999_999)
    } else {
        Duration::new((nanos / 1_000_000_000) as u64, (nanos % 1_000_000_000) as u32)
    }
}

} // verus!
