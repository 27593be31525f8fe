//! The decisions of the translation API client: authorisation, retrying
//! under rate limits, and reading the API's replies.
use vstd::prelude::*;
use vstd::string::StringExecFns;
use crate::text::chars_of;
use crate::types::request::{ApiError, ResponseStatus, TranslationResponse};

verus! {

/// Where translation requests are sent.
pub const API_URL: &'static str = "https://tmt.ilprl.ku.edu.np/lang-translate";

/// How often a rate-limited request is retried before the client gives up.
pub const MAX_RETRIES: u32 = 10;

/// The HTTP status of a rate-limited request.
pub const TOO_MANY_REQUESTS: u16 = 429;

/// The least time between two requests to the API, in milliseconds: the API
/// takes at most 60 requests a minute, and requests go out one at a time.
pub const MIN_REQUEST_SPACING_MS: u64 = 1500;

/// How long to wait before the next request, in milliseconds, when the last
/// one went out at `last_sent_ms` (if any) and it is now `now_ms`: until
/// [`MIN_REQUEST_SPACING_MS`] have passed since the last request (capped at
/// the largest `u64`).
pub open spec fn request_wait(last_sent_ms: Option<u64>, now_ms: u64) -> int {
    match last_sent_ms {
        None => 0,
        Some(l) => {
            let w = l + MIN_REQUEST_SPACING_MS - now_ms;
            if w <= 0 {
                0
            } else if w > u64::MAX {
                u64::MAX as int
            } else {
                w
            }
        },
    }
}

/// How long to wait before the next request (see [`request_wait`]).
pub fn request_delay(last_sent_ms: Option<u64>, now_ms: u64) -> (wait: u64)
    ensures
        wait == request_wait(last_sent_ms, now_ms),
{
    match last_sent_ms {
        None => 0,
        Some(l) => {
            if now_ms >= l {
                let passed = now_ms - l;
                if passed >= MIN_REQUEST_SPACING_MS {
                    0
                } else {
                    MIN_REQUEST_SPACING_MS - passed
                }
            } else {
                (l - now_ms).saturating_add(MIN_REQUEST_SPACING_MS)
            }
        },
    }
}

/// Requests sent after waiting as [`request_delay`] says lie at least
/// [`MIN_REQUEST_SPACING_MS`] apart, so sixty requests take at least 88.5
/// seconds: the API's limit of 60 a minute is never reached.
pub proof fn lemma_spaced_requests_under_cap(times: Seq<int>)
    requires
        times.len() >= 1,
        forall|i: int| 0 < i < times.len() ==> #[trigger] times[i] - times[i - 1] >= MIN_REQUEST_SPACING_MS,
    ensures
        times.last() - times[0] >= MIN_REQUEST_SPACING_MS * (times.len() - 1),
        times.len() >= 60 ==> times[59] - times[0] > 60_000,
    decreases times.len(),
{
    if times.len() > 1 {
        let front = times.drop_last();
        assert forall|i: int| 0 < i < front.len() implies #[trigger] front[i] - front[i - 1]
            >= MIN_REQUEST_SPACING_MS by {
            assert(front[i] == times[i] && front[i - 1] == times[i - 1]);
        }
        lemma_spaced_requests_under_cap(front);
        assert(times[times.len() - 1] - times[times.len() - 2] >= MIN_REQUEST_SPACING_MS);
        if times.len() >= 60 {
            let first60 = times.take(60);
            assert forall|i: int| 0 < i < first60.len() implies #[trigger] first60[i] - first60[i
                - 1] >= MIN_REQUEST_SPACING_MS by {
                assert(first60[i] == times[i] && first60[i - 1] == times[i - 1]);
            }
            if times.len() > 60 {
                lemma_spaced_requests_under_cap(first60);
            }
        }
    }
}

/// A request that waited as told goes out at least
/// [`MIN_REQUEST_SPACING_MS`] after the last one (short of the `u64` cap).
pub proof fn lemma_wait_keeps_spacing(last_sent_ms: u64, now_ms: u64)
    ensures
        request_wait(Some(last_sent_ms), now_ms) < u64::MAX ==> now_ms + request_wait(
            Some(last_sent_ms),
            now_ms,
        ) >= last_sent_ms + MIN_REQUEST_SPACING_MS,
{
}

/// The value of the `Authorization` header for an API token.
pub fn bearer_value(token: &str) -> (res: String)
    ensures
        res@ == "Bearer "@ + token@,
{
    let mut v = String::from_str("Bearer ");
    v.append(token);
    v
}

/// `2` to the power `n`.
pub open spec fn two_to(n: nat) -> nat
    decreases n,
{
    if n == 0 {
        1
    } else {
        2 * two_to((n - 1) as nat)
    }
}

/// A decimal digit.
pub open spec fn is_dec_digit(c: char) -> bool {
    '0' <= c && c <= '9'
}

/// The number that a sequence of decimal digits writes.
pub open spec fn digits_value(d: Seq<char>) -> nat
    decreases d.len(),
{
    if d.len() == 0 {
        0
    } else {
        digits_value(d.drop_last()) * 10 + (d.last() as int - '0' as int) as nat
    }
}

/// The text after an optional leading `+`.
pub open spec fn unsigned_digits(s: Seq<char>) -> Seq<char> {
    if s.len() > 0 && s[0] == '+' {
        s.skip(1)
    } else {
        s
    }
}

/// Every character is a decimal digit.
pub open spec fn all_dec_digits(d: Seq<char>) -> bool {
    forall|i: int| 0 <= i < d.len() ==> is_dec_digit(#[trigger] d[i])
}

/// What `str::parse::<u64>` reads: an optional `+`, then one or more decimal
/// digits whose value fits in a `u64`.
pub open spec fn parse_u64_text(s: Seq<char>) -> Option<u64> {
    let d = unsigned_digits(s);
    if d.len() > 0 && all_dec_digits(d) && digits_value(d) <= u64::MAX {
        Some(digits_value(d) as u64)
    } else {
        None
    }
}

/// `10` to the power `n`.
pub open spec fn ten_to(n: nat) -> nat
    decreases n,
{
    if n == 0 {
        1
    } else {
        10 * ten_to((n - 1) as nat)
    }
}

/// A string of decimal digits is read whole: the value of one digit is the
/// digit, and the value of two strings one after the other is the first
/// shifted by the length of the second, plus the second.
pub proof fn lemma_digits_value_concat(a: Seq<char>, b: Seq<char>)
    ensures
        digits_value(a + b) == digits_value(a) * ten_to(b.len()) + digits_value(b),
        b.len() == 1 && is_dec_digit(b[0]) ==> digits_value(b) == b[0] as int - '0' as int,
    decreases b.len(),
{
    if b.len() == 0 {
        assert(a + b =~= a);
    } else {
        let b1 = b.drop_last();
        assert((a + b).drop_last() =~= a + b1);
        assert((a + b).last() == b.last());
        lemma_digits_value_concat(a, b1);
        let x = digits_value(a);
        let t = ten_to(b1.len());
        assert(ten_to(b.len()) == 10 * t);
        assert((x * t + digits_value(b1)) * 10 == x * (10 * t) + digits_value(b1) * 10)
            by (nonlinear_arith);
        if b.len() == 1 {
            assert(b1 =~= Seq::<char>::empty());
        }
    }
}

/// `str::parse::<u64>` reads a text of decimal digits as its decimal value,
/// where that value fits.
pub proof fn lemma_parse_u64_digits(d: Seq<char>)
    requires
        d.len() > 0,
        all_dec_digits(d),
        digits_value(d) <= u64::MAX,
    ensures
        parse_u64_text(d) == Some(digits_value(d) as u64),
{
    assert(is_dec_digit(d[0]));
    assert(unsigned_digits(d) == d);
}

/// A rate-limited response whose `Retry-After` header is a decimal number
/// (that fits in a `u64`) waits exactly that many seconds, whatever the
/// attempt, while retries are left.
pub proof fn lemma_retry_after_is_the_wait(k: nat, h: Seq<char>)
    requires
        k <= MAX_RETRIES,
        h.len() > 0,
        all_dec_digits(h),
        digits_value(h) <= u64::MAX,
    ensures
        retry_decision(k, 429, Some(h)) == RetryAction::Wait(digits_value(h) as u64),
{
    lemma_parse_u64_digits(h);
}

proof fn lemma_digits_grow(d: Seq<char>, k: int)
    requires
        0 <= k <= d.len(),
        forall|i: int| 0 <= i < d.len() ==> is_dec_digit(#[trigger] d[i]),
    ensures
        digits_value(d.take(k)) <= digits_value(d),
    decreases d.len() - k,
{
    if k < d.len() {
        let front = d.drop_last();
        assert(front.take(k) =~= d.take(k));
        lemma_digits_grow(front, k);
        assert(d.last() == d[d.len() - 1]);
    } else {
        assert(d.take(k) =~= d);
    }
}

/// Reads a decimal `u64` as `str::parse::<u64>` does.
pub fn parse_u64(s: &str) -> (res: Option<u64>)
    ensures
        res == parse_u64_text(s@),
{
    let chars = chars_of(s);
    let n = chars.len();
    let mut i: usize = 0;
    if n > 0 && chars[0] == '+' {
        i = 1;
    }
    let ghost d = if s@.len() > 0 && s@[0] == '+' {
        s@.skip(1)
    } else {
        s@
    };
    assert(d =~= chars@.skip(i as int));
    if i == n {
        return None;
    }
    let start = i;
    let mut value: u64 = 0;
    while i < n
        invariant
            start <= i <= n == chars@.len(),
            start < n,
            chars@ == s@,
            d == chars@.skip(start as int),
            d == unsigned_digits(s@),
            forall|k: int| start <= k < i ==> is_dec_digit(#[trigger] chars@[k]),
            value == digits_value(d.take(i - start)),
        decreases n - i,
    {
        let c = chars[i];
        if !('0' <= c && c <= '9') {
            assert(d[i - start] == c);
            assert(!is_dec_digit(d[i - start]));
            assert(!(forall|m: int| 0 <= m < d.len() ==> is_dec_digit(#[trigger] d[m])));
            return None;
        }
        let digit = (c as u32 - '0' as u32) as u64;
        proof {
            let p = d.take(i - start + 1);
            assert(p.drop_last() =~= d.take(i - start));
            assert(p.last() == c);
            assert(digits_value(p) == value * 10 + digit);
        }
        match value.checked_mul(10) {
            Some(v) => match v.checked_add(digit) {
                Some(w) => {
                    value = w;
                },
                None => {
                    proof {
                        if forall|m: int| 0 <= m < d.len() ==> is_dec_digit(#[trigger] d[m]) {
                            lemma_digits_grow(d, i - start + 1);
                        }
                    }
                    return None;
                },
            },
            None => {
                proof {
                    if forall|m: int| 0 <= m < d.len() ==> is_dec_digit(#[trigger] d[m]) {
                        lemma_digits_grow(d, i - start + 1);
                    }
                }
                return None;
            },
        }
        i = i + 1;
    }
    assert(d.take(i - start) =~= d);
    assert forall|k: int| 0 <= k < d.len() implies is_dec_digit(#[trigger] d[k]) by {
        assert(d[k] == chars@[start + k]);
    }
    Some(value)
}

/// What the client does after a response.
#[derive(Debug, PartialEq, Eq, Structural)]
pub enum RetryAction {
    /// Wait this many seconds, then send the request again.
    Wait(u64),
    /// Stop: the request was rate limited once more than the client retries.
    GiveUp,
    /// The response is final: read its body.
    ReadBody,
}

/// The action after response number `attempt` with the given status and
/// `Retry-After` header: a rate-limited request waits as the header says,
/// or else `2^attempt` seconds, until it has been retried [`MAX_RETRIES`] times.
pub open spec fn retry_decision(attempt: nat, status: u16, retry_after: Option<Seq<char>>) -> RetryAction {
    if status != TOO_MANY_REQUESTS {
        RetryAction::ReadBody
    } else if attempt > MAX_RETRIES {
        RetryAction::GiveUp
    } else {
        RetryAction::Wait(
            match retry_after {
                Some(h) => match parse_u64_text(h) {
                    Some(v) => v,
                    None => two_to(attempt) as u64,
                },
                None => two_to(attempt) as u64,
            },
        )
    }
}

/// How many responses a request has had so far.
pub struct RetryState {
    attempt: u32,
}

impl RetryState {
    /// The number of responses counted so far (it stops counting once the
    /// client has given up).
    pub closed spec fn attempts(&self) -> nat {
        self.attempt as nat
    }

    /// The counter never passes one beyond the retries.
    pub closed spec fn wf(&self) -> bool {
        self.attempt <= MAX_RETRIES + 1
    }

    /// A request that has had no response yet.
    pub fn new() -> (res: Self)
        ensures
            res.attempts() == 0,
            res.wf(),
    {
        RetryState { attempt: 0 }
    }

    /// Counts a response and decides what to do next.
    pub fn on_response(&mut self, status: u16, retry_after: Option<&str>) -> (res: RetryAction)
        requires
            old(self).wf(),
        ensures
            final(self).wf(),
            final(self).attempts() == if old(self).attempts() <= MAX_RETRIES {
                old(self).attempts() + 1
            } else {
                old(self).attempts()
            },
            res == retry_decision(
                final(self).attempts(),
                status,
                match retry_after {
                    Some(h) => Some(h@),
                    None => None,
                },
            ),
            retry_after matches Some(h) ==> (status == 429 && final(self).attempts() <= MAX_RETRIES
                && h@.len() > 0 && all_dec_digits(h@) && digits_value(h@) <= u64::MAX ==> res
                == RetryAction::Wait(digits_value(h@) as u64)),
    {
        proof {
            if let Some(h) = retry_after {
                if h@.len() > 0 && all_dec_digits(h@) && digits_value(h@) <= u64::MAX {
                    lemma_parse_u64_digits(h@);
                }
            }
        }
        if self.attempt <= MAX_RETRIES {
            self.attempt = self.attempt + 1;
        }
        if status != TOO_MANY_REQUESTS {
            return RetryAction::ReadBody;
        }
        if self.attempt > MAX_RETRIES {
            return RetryAction::GiveUp;
        }
        let parsed = match retry_after {
            Some(h) => parse_u64(h),
            None => None,
        };
        match parsed {
            Some(v) => RetryAction::Wait(v),
            None => RetryAction::Wait(power_of_two(self.attempt)),
        }
    }
}

/// `2^n` for a small `n`.
fn power_of_two(n: u32) -> (res: u64)
    requires
        n <= MAX_RETRIES,
    ensures
        res == two_to(n as nat),
{
    let mut v: u64 = 1;
    let mut i: u32 = 0;
    proof {
        reveal_with_fuel(two_to, 11);
        assert(two_to(10) == 1024);
    }
    while i < n
        invariant
            i <= n <= MAX_RETRIES,
            v == two_to(i as nat),
            two_to(10) == 1024,
        decreases n - i,
    {
        proof {
            lemma_two_to_mono(i as nat + 1, 10);
        }
        v = v * 2;
        i = i + 1;
    }
    v
}

proof fn lemma_two_to_mono(a: nat, b: nat)
    requires
        a <= b,
    ensures
        two_to(a) <= two_to(b),
    decreases b,
{
    if a < b {
        lemma_two_to_mono(a, (b - 1) as nat);
    }
}

/// The outcome of a successful reply: the response itself when the API
/// reports success, or else its message as the error.
pub fn accept_response(res: TranslationResponse) -> (out: Result<TranslationResponse, String>)
    ensures
        res.message_type == ResponseStatus::Success ==> out == Ok::<TranslationResponse, String>(res),
        res.message_type != ResponseStatus::Success ==> out == Err::<TranslationResponse, String>(res.message),
{
    match res.message_type {
        ResponseStatus::Success => Ok(res),
        ResponseStatus::Fail => Err(res.message),
    }
}

/// The message of a failed reply: the API's own message when its body could
/// be read, or else `Unknown API error`.
pub fn api_error_message(parsed: Option<ApiError>) -> (msg: String)
    ensures
        match parsed {
            Some(e) => msg@ == e.message@,
            None => msg@ == "Unknown API error"@,
        },
{
    match parsed {
        Some(e) => e.message,
        None => String::from_str("Unknown API error"),
    }
}

/// The message when the rate limit outlasts every retry.
pub fn rate_limit_message() -> (msg: String)
    ensures
        msg@ == "Rate limit exceeded"@,
{
    String::from_str("Rate limit exceeded")
}

/// The client stops retrying: a request that is rate limited every time gets
/// exactly [`MAX_RETRIES`] waits, the `k`-th of `2^k` seconds when the API
/// names no delay, and then the client gives up.
pub proof fn lemma_retries_bounded(k: nat)
    ensures
        1 <= k <= MAX_RETRIES ==> retry_decision(k, TOO_MANY_REQUESTS, None) == RetryAction::Wait(
            two_to(k) as u64,
        ),
        k > MAX_RETRIES ==> retry_decision(k, TOO_MANY_REQUESTS, None) == RetryAction::GiveUp,
{
}

} // verus!
