//! What the retry policy promises.

use crate::date;
use crate::error::Error;
use crate::header;
use crate::method::Method;
use crate::platform;
use crate::response::Response;
use crate::retry;
use crate::retry::Attempt;
use crate::retry::Backoff;
use crate::retry::RetryPolicy;
use crate::text;
use crate::text_laws;
use std::time::Duration;
use vstd::prelude::*;

verus! {

/// How many attempts a request comes to, from attempt number `from` on, where
/// attempt number `i` would end in `outcomes[i]`.
pub open spec fn attempts_made(
    policy: RetryPolicy,
    method: Method,
    outcomes: Seq<std::result::Result<Response, Error>>,
    from: int,
) -> int
    decreases outcomes.len() - from,
{
    if from >= outcomes.len() {
        0
    } else if retry::retried(policy, from, method, retry::attempt_view(outcomes[from])) {
        1 + attempts_made(policy, method, outcomes, from + 1)
    } else {
        1
    }
}

/// Whether the policy lets requests with this method be repeated: `GET`,
/// `HEAD`, `PUT`, `DELETE` and `OPTIONS` always.
pub open spec fn repeatable(policy: RetryPolicy, method: Method) -> bool {
    ||| policy.retry_non_idempotent
    ||| seq![Method::Get, Method::Head, Method::Put, Method::Delete, Method::Options].contains(
        method,
    )
}

/// Whether an outcome is a failure that the policy retries.
pub open spec fn transient(
    policy: RetryPolicy,
    outcome: std::result::Result<Response, Error>,
) -> bool {
    match outcome {
        Ok(response) => policy.retry_statuses@.contains(response.status.code),
        Err(error) => policy.retry_io_errors && error is Io,
    }
}

proof fn lemma_repeatable(policy: RetryPolicy, method: Method)
    ensures
        repeatable(policy, method) <==> policy.retry_non_idempotent || retry::is_idempotent(method),
{
    let all = seq![Method::Get, Method::Head, Method::Put, Method::Delete, Method::Options];
    assert(all[0] == Method::Get && all[1] == Method::Head && all[2] == Method::Put && all[3]
        == Method::Delete && all[4] == Method::Options);
    if all.contains(method) {
        let i = choose|i: int| 0 <= i < all.len() && all[i] == method;
        assert(i == 0 || i == 1 || i == 2 || i == 3 || i == 4);
    }
}

/// There is another attempt after every failure that the policy retries, for
/// every method that it lets be repeated, up to the last attempt that it
/// allows; after anything else there is none.
pub proof fn law_when_there_is_another_attempt(
    policy: RetryPolicy,
    method: Method,
    outcome: std::result::Result<Response, Error>,
    attempt: int,
)
    ensures
        retry::retried(policy, attempt, method, retry::attempt_view(outcome)) <==> transient(
            policy,
            outcome,
        ) && repeatable(policy, method) && attempt < policy.max_retries,
{
    lemma_repeatable(policy, method);
}

/// A request whose attempts all end in failures that the policy retries is
/// attempted `max_retries` times more than once, where it can be repeated, and
/// once where it cannot.
pub proof fn law_every_allowed_attempt_is_made(
    policy: RetryPolicy,
    method: Method,
    outcomes: Seq<std::result::Result<Response, Error>>,
)
    requires
        outcomes.len() > policy.max_retries,
        forall|i: int| 0 <= i < outcomes.len() ==> transient(policy, #[trigger] outcomes[i]),
    ensures
        attempts_made(policy, method, outcomes, 0) == if repeatable(policy, method) {
            policy.max_retries + 1
        } else {
            1
        },
{
    lemma_attempts_left(policy, method, outcomes, 0);
}

proof fn lemma_attempts_left(
    policy: RetryPolicy,
    method: Method,
    outcomes: Seq<std::result::Result<Response, Error>>,
    from: int,
)
    requires
        0 <= from <= policy.max_retries,
        outcomes.len() > policy.max_retries,
        forall|i: int| 0 <= i < outcomes.len() ==> transient(policy, #[trigger] outcomes[i]),
    ensures
        attempts_made(policy, method, outcomes, from) == if repeatable(policy, method) {
            policy.max_retries + 1 - from
        } else {
            1
        },
    decreases outcomes.len() - from,
{
    assert(transient(policy, outcomes[from]));
    law_when_there_is_another_attempt(policy, method, outcomes[from], from);
    if from < policy.max_retries {
        lemma_attempts_left(policy, method, outcomes, from + 1);
    }
}

/// Connection errors alone are reason enough: a request whose attempts all end
/// in one is attempted `max_retries + 1` times.
pub proof fn law_connection_errors_use_every_attempt(
    policy: RetryPolicy,
    method: Method,
    outcomes: Seq<std::result::Result<Response, Error>>,
)
    requires
        policy.retry_io_errors,
        repeatable(policy, method),
        outcomes.len() > policy.max_retries,
        forall|i: int|
            0 <= i < outcomes.len() ==> (#[trigger] outcomes[i] matches Err(e) && e is Io),
    ensures
        attempts_made(policy, method, outcomes, 0) == policy.max_retries + 1,
{
    assert forall|i: int| 0 <= i < outcomes.len() implies transient(
        policy,
        #[trigger] outcomes[i],
    ) by {}
    law_every_allowed_attempt_is_made(policy, method, outcomes);
}

/// So are statuses: a request whose attempts are all answered with one of the
/// retried statuses is attempted `max_retries + 1` times.
pub proof fn law_retried_statuses_use_every_attempt(
    policy: RetryPolicy,
    method: Method,
    outcomes: Seq<std::result::Result<Response, Error>>,
)
    requires
        repeatable(policy, method),
        outcomes.len() > policy.max_retries,
        forall|i: int|
            0 <= i < outcomes.len() ==> (#[trigger] outcomes[i] matches Ok(r)
                && policy.retry_statuses@.contains(r.status.code)),
    ensures
        attempts_made(policy, method, outcomes, 0) == policy.max_retries + 1,
{
    assert forall|i: int| 0 <= i < outcomes.len() implies transient(
        policy,
        #[trigger] outcomes[i],
    ) by {}
    law_every_allowed_attempt_is_made(policy, method, outcomes);
}

/// The first outcome that the policy does not retry is the last: the request
/// is not attempted again.
pub proof fn law_first_settled_outcome_stands(
    policy: RetryPolicy,
    method: Method,
    outcomes: Seq<std::result::Result<Response, Error>>,
    n: int,
)
    requires
        repeatable(policy, method),
        0 <= n < outcomes.len(),
        n <= policy.max_retries,
        forall|i: int| 0 <= i < n ==> transient(policy, #[trigger] outcomes[i]),
        !transient(policy, outcomes[n]),
    ensures
        attempts_made(policy, method, outcomes, 0) == n + 1,
{
    lemma_attempts_until(policy, method, outcomes, n, 0);
}

proof fn lemma_attempts_until(
    policy: RetryPolicy,
    method: Method,
    outcomes: Seq<std::result::Result<Response, Error>>,
    n: int,
    from: int,
)
    requires
        repeatable(policy, method),
        0 <= from <= n < outcomes.len(),
        n <= policy.max_retries,
        forall|i: int| 0 <= i < n ==> transient(policy, #[trigger] outcomes[i]),
        !transient(policy, outcomes[n]),
    ensures
        attempts_made(policy, method, outcomes, from) == n + 1 - from,
    decreases n - from,
{
    law_when_there_is_another_attempt(policy, method, outcomes[from], from);
    if from < n {
        assert(transient(policy, outcomes[from]));
        lemma_attempts_until(policy, method, outcomes, n, from + 1);
    }
}

/// A fixed backoff always waits alike. An exponential one without jitter
/// starts with its base, or with its cap where that is less.
pub proof fn law_first_delays(base: Duration, max: Duration, attempt: usize, chance: u64)
    ensures
        retry::backoff_nanos(Backoff::Fixed(base), attempt, chance) == platform::duration_nanos(
            base,
        ),
        ({
            let first = retry::backoff_nanos(
                Backoff::Exponential { base, max, jitter: false },
                0,
                chance,
            );
            let (b, m) = (platform::duration_nanos(base), platform::duration_nanos(max));
            if b <= m {
                first == b
            } else {
                first == m
            }
        }),
{
    vstd::arithmetic::power2::lemma2_to64();
    assert(vstd::arithmetic::power2::pow2(0) == 1);
    let b = platform::duration_nanos(base) as int;
    assert(b * 1 == b);
}

/// Without jitter no delay is shorter than the one before it, and once the cap
/// is reached it stays reached.
pub proof fn law_delays_never_shrink(base: Duration, max: Duration, attempt: usize, chance: u64)
    requires
        attempt < usize::MAX,
    ensures
        ({
            let backoff = Backoff::Exponential { base, max, jitter: false };
            let this = retry::backoff_nanos(backoff, attempt, chance);
            let next = retry::backoff_nanos(backoff, (attempt + 1) as usize, chance);
            &&& this <= next
            &&& next == 2 * this || next == platform::duration_nanos(max)
        }),
{
    vstd::arithmetic::power2::lemma_pow2_unfold((attempt + 1) as nat);
    vstd::arithmetic::power2::lemma_pow2_pos(attempt as nat);
    let (b, f) = (
        platform::duration_nanos(base) as int,
        vstd::arithmetic::power2::pow2(attempt as nat) as int,
    );
    assert(b * (2 * f) == 2 * (b * f)) by (nonlinear_arith);
    assert(b * f >= 0) by (nonlinear_arith)
        requires
            b >= 0,
            f > 0,
    ;
}

/// With jitter, chance picks the delay evenly from what it would be without:
/// `chance` of 2^64 parts of it, rounded down.
pub proof fn law_jitter_is_even(base: Duration, max: Duration, attempt: usize, chance: u64)
    requires
        retry::backoff_nanos(Backoff::Exponential { base, max, jitter: false }, attempt, chance)
            <= u64::MAX,
    ensures
        ({
            let whole = retry::backoff_nanos(
                Backoff::Exponential { base, max, jitter: false },
                attempt,
                chance,
            );
            let part = retry::backoff_nanos(
                Backoff::Exponential { base, max, jitter: true },
                attempt,
                chance,
            );
            part * 0x1_0000_0000_0000_0000 <= chance * whole < (part + 1) * 0x1_0000_0000_0000_0000
        }),
{
}

/// A `Retry-After` value in seconds asks for so many seconds, whatever the
/// time and whatever white space is around it.
pub proof fn law_retry_after_seconds(
    before: Seq<char>,
    seconds: u64,
    after: Seq<char>,
    now: i128,
)
    requires
        text_laws::is_blank(before),
        text_laws::is_blank(after),
    ensures
        retry::asked_nanos(before + text::decimal(seconds as nat) + after, now) == Some(
            seconds * 1_000_000_000,
        ),
{
    let d = text::decimal(seconds as nat);
    text::lemma_decimal_digits(seconds as nat);
    assert('0' <= d[0] <= '9' && '0' <= d[d.len() - 1] <= '9');
    text_laws::law_trimming_takes_what_is_around(before, d, after);
    text_laws::law_decimal_reads_back(seconds as nat, u64::MAX as nat);
}

/// A `Retry-After` value that is a date, and no number, asks for the time until
/// then: for nothing once it is past, and for all of it before.
pub proof fn law_retry_after_date(value: Seq<char>, deadline: nat, now: i128)
    requires
        text_laws::is_trim(value),
        text::unsigned_value(value, 10) is None,
        date::http_date(value) == Some(deadline),
        deadline * 1_000_000_000 - now <= platform::MAX_DURATION_NANOS,
    ensures
        ({
            let asked = retry::asked_nanos(value, now);
            &&& asked matches Some(nanos) && nanos >= 0
            &&& now >= deadline * 1_000_000_000 ==> asked == Some(0int)
            &&& now < deadline * 1_000_000_000 ==> asked == Some(
                deadline * 1_000_000_000 - now,
            )
        }),
{
    let none = Seq::<char>::empty();
    text_laws::law_trimming_takes_what_is_around(none, value, none);
    assert(none + value + none == value);
}

/// What the server asks for is granted up to the policy's cap, if the policy
/// respects it, and then decides the delay; otherwise the backoff does.
pub proof fn law_delay_before_the_next_attempt(
    policy: RetryPolicy,
    attempt: usize,
    outcome: std::result::Result<Response, Error>,
    now: i128,
    chance: u64,
)
    ensures
        ({
            let delay = retry::retry_delay(policy, attempt, outcome, now, chance);
            let own = retry::backoff_nanos(policy.backoff, attempt, chance);
            let cap = platform::duration_nanos(policy.max_retry_after);
            match outcome {
                Err(_) => delay == own,
                Ok(response) => match header::lookup(response.headers@, "Retry-After"@) {
                    None => delay == own,
                    Some(value) => match retry::asked_nanos(value, now) {
                        None => delay == own,
                        Some(asked) => {
                            &&& !policy.respect_retry_after ==> delay == own
                            &&& policy.respect_retry_after && asked <= cap ==> delay == asked
                            &&& policy.respect_retry_after && asked > cap ==> delay == cap
                        },
                    },
                },
            }
        }),
{
    reveal_strlit("Retry-After");
    reveal_strlit("retry-after");
    assert(text::lowered("Retry-After"@) =~= text::lowered("retry-after"@));
    if let Ok(response) = outcome {
        header::law_lookup_ignores_case(response.headers@, "Retry-After"@, "retry-after"@);
    }
}

/// A `Retry-After` value that is neither a number nor a date asks for nothing,
/// and so does one with more seconds than can be counted.
pub proof fn law_other_retry_after_values(value: Seq<char>, now: i128)
    requires
        text_laws::is_trim(value),
        date::http_date(value) is None,
        text::unsigned_value(value, 10) matches Some(n) ==> n > u64::MAX,
    ensures
        retry::asked_nanos(value, now) is None,
{
    let none = Seq::<char>::empty();
    text_laws::law_trimming_takes_what_is_around(none, value, none);
    assert(none + value + none == value);
}

} // verus!
