//! Decisions of the MangaDex HTTP client.
//!
//! The client in the program performs the requests; this module decides
//! what it asks for and what it does with each answer: the paging of the
//! chapter feed (which never asks past the collection limit), the retry and
//! back-off policy, the delays that rate-limit headers ask for, the check of
//! the `result` field and the URLs of images and error summaries.

use vstd::prelude::*;

use crate::data::models::{AtHomeResponse, Relationship};
use crate::infra::error::AppError;
use crate::number::{parse_u64, unsigned_text_value};
use crate::text::{
    CharClass, chars_eq_str, chars_of, collapse_whitespace, collapse_ws, push_all, push_str,
    slice_chars, string_from_chars, strip_end, strip_end_chars, u64_text, dec_text,
};

verus! {

// ---------------------------------------------------------------------------
// Result field
// ---------------------------------------------------------------------------

pub open spec fn bad_result_message(result: Seq<char>) -> Seq<char> {
    "MangaDex returned result '"@ + result + "'"@
}

/// Checks that the `result` field of a MangaDex answer reports success.
pub fn ensure_success_result(result: &str) -> (r: Result<(), AppError>)
    ensures
        result@ == "ok"@ ==> r is Ok,
        result@ != "ok"@ ==> (r matches Err(AppError::Api(m)) && m@ == bad_result_message(
            result@,
        )),
{
    let chars = chars_of(result);
    if chars_eq_str(chars.as_slice(), "ok") {
        return Ok(());
    }
    let mut m = chars_of("MangaDex returned result '");
    push_all(&mut m, chars.as_slice());
    push_str(&mut m, "'");
    Err(AppError::Api(string_from_chars(m.as_slice())))
}

// ---------------------------------------------------------------------------
// Delays
// ---------------------------------------------------------------------------

pub open spec fn two_to(k: nat) -> nat
    decreases k,
{
    if k == 0 {
        1
    } else {
        2 * two_to((k - 1) as nat)
    }
}

/// The powers of two that the back-off uses.
proof fn lemma_two_to_small()
    ensures
        two_to(0) == 1 && two_to(1) == 2 && two_to(2) == 4 && two_to(3) == 8 && two_to(4) == 16
            && two_to(5) == 32,
{
    reveal_with_fuel(two_to, 6);
}

/// Exponential back-off: 500 ms doubled per attempt, the exponent capped at 5.
pub open spec fn backoff_millis(attempt: nat) -> nat {
    500 * two_to(if attempt > 5 {
        5
    } else {
        attempt
    })
}

/// Exponential back-off in milliseconds, with the exponent capped so that
/// delays stay bounded (at most 16 seconds).
pub fn exponential_backoff(attempt: usize) -> (r: u64)
    ensures
        r as nat == backoff_millis(attempt as nat),
        500 <= r <= 16_000,
{
    let capped: usize = if attempt > 5 {
        5
    } else {
        attempt
    };
    let mut factor: u64 = 1;
    let mut k: usize = 0;
    proof {
        lemma_two_to_small();
    }
    while k < capped
        invariant
            k <= capped <= 5,
            factor as nat == two_to(k as nat),
            two_to(0) == 1 && two_to(1) == 2 && two_to(2) == 4 && two_to(3) == 8 && two_to(4) == 16
                && two_to(5) == 32,
        decreases capped - k,
    {
        factor = factor * 2;
        k += 1;
    }
    500 * factor
}

/// Seconds until the Unix timestamp of an `X-RateLimit-Retry-After` header
/// (zero when it is past), when the header holds a timestamp and the clock
/// could be read.
pub open spec fn x_rate_limit_delay_secs(value: Option<Seq<char>>, now_secs: Option<u64>) -> Option<
    nat,
> {
    match (value, now_secs) {
        (Some(v), Some(now)) => match unsigned_text_value(v) {
            Some(ts) if ts <= u64::MAX => Some(if ts >= now {
                (ts - now) as nat
            } else {
                0nat
            }),
            _ => None,
        },
        _ => None,
    }
}

/// The seconds of a `Retry-After` header, when it holds a number of seconds.
pub open spec fn retry_after_delay_secs(value: Option<Seq<char>>) -> Option<nat> {
    match value {
        Some(v) => match unsigned_text_value(v) {
            Some(s) if s <= u64::MAX => Some(s),
            _ => None,
        },
        None => None,
    }
}

/// The delay that the rate-limit headers ask for, in milliseconds, with one
/// second of margin; `X-RateLimit-Retry-After` comes before `Retry-After`.
pub open spec fn header_delay_millis(
    x_rate_limit: Option<Seq<char>>,
    retry_after: Option<Seq<char>>,
    now_secs: Option<u64>,
) -> Option<nat> {
    match x_rate_limit_delay_secs(x_rate_limit, now_secs) {
        Some(d) => Some((d + 1) * 1000),
        None => match retry_after_delay_secs(retry_after) {
            Some(d) => Some((d + 1) * 1000),
            None => None,
        },
    }
}

/// Reads `X-RateLimit-Retry-After` as a Unix timestamp: the seconds from
/// `now_secs` until then, or zero when it is past.
pub fn x_rate_limit_retry_after_delay(value: Option<&str>, now_secs: Option<u64>) -> (r: Option<
    u64,
>)
    ensures
        match x_rate_limit_delay_secs(
            match value {
                Some(s) => Some(s@),
                None => None::<Seq<char>>,
            },
            now_secs,
        ) {
            Some(d) => r == Some(d as u64),
            None => r is None,
        },
{
    let value = match value {
        Some(v) => v,
        None => return None,
    };
    let timestamp = match parse_u64(value) {
        Ok(t) => t,
        Err(_) => return None,
    };
    let now = match now_secs {
        Some(n) => n,
        None => return None,
    };
    Some(timestamp.saturating_sub(now))
}

/// Reads `Retry-After` as a number of seconds.
pub fn retry_after_delay(value: Option<&str>) -> (r: Option<u64>)
    ensures
        match retry_after_delay_secs(
            match value {
                Some(s) => Some(s@),
                None => None::<Seq<char>>,
            },
        ) {
            Some(d) => r == Some(d as u64),
            None => r is None,
        },
{
    let value = match value {
        Some(v) => v,
        None => return None,
    };
    match parse_u64(value) {
        Ok(s) => Some(s),
        Err(_) => None,
    }
}

/// The delay the rate-limit headers ask for, in milliseconds, with one second
/// of safety margin; `X-RateLimit-Retry-After` has priority.
pub fn rate_limit_header_delay(
    x_rate_limit: Option<&str>,
    retry_after: Option<&str>,
    now_secs: Option<u64>,
) -> (r: Option<u128>)
    ensures
        match header_delay_millis(
            match x_rate_limit {
                Some(s) => Some(s@),
                None => None::<Seq<char>>,
            },
            match retry_after {
                Some(s) => Some(s@),
                None => None::<Seq<char>>,
            },
            now_secs,
        ) {
            Some(d) => r matches Some(x) && x as nat == d,
            None => r is None,
        },
{
    if let Some(d) = x_rate_limit_retry_after_delay(x_rate_limit, now_secs) {
        return Some((d as u128 + 1) * 1000);
    }
    if let Some(d) = retry_after_delay(retry_after) {
        return Some((d as u128 + 1) * 1000);
    }
    None
}

/// The delay before another attempt, in milliseconds: what the rate-limit
/// headers ask for, or the exponential back-off.
pub fn retry_delay(header_delay: Option<u128>, attempt: usize) -> (r: u128)
    ensures
        r == match header_delay {
            Some(d) => d,
            None => backoff_millis(attempt as nat) as u128,
        },
{
    match header_delay {
        Some(d) => d,
        None => exponential_backoff(attempt) as u128,
    }
}

// ---------------------------------------------------------------------------
// Retry policy
// ---------------------------------------------------------------------------

/// What the client does after one attempt of a request.
#[derive(Clone, Copy, Debug, PartialEq, Eq, Structural)]
pub enum AttemptAction {
    /// The answer succeeded: read its body.
    Deliver,
    /// Sleep this many milliseconds, then try again if an attempt is left.
    Retry { delay_ms: u128 },
    /// HTTP 403: stop sending requests (a rate-limit protection error).
    Forbidden,
    /// Any other status: stop with an API error that summarises the body.
    Fail,
    /// The request itself failed on the last attempt: stop with that error.
    GiveUp,
}

/// The action after attempt `attempt` (counted from 0) of at most
/// `max_retries + 1` attempts. `status` is the HTTP status of the answer, or
/// `None` when the request itself failed; `header_delay` is the delay the
/// rate-limit headers of the answer ask for.
pub open spec fn attempt_action(
    attempt: nat,
    max_retries: nat,
    status: Option<u16>,
    header_delay: Option<u128>,
) -> AttemptAction {
    match status {
        Some(s) => if 200 <= s <= 299 {
            AttemptAction::Deliver
        } else if s == 429 {
            AttemptAction::Retry {
                delay_ms: match header_delay {
                    Some(d) => d,
                    None => backoff_millis(attempt) as u128,
                },
            }
        } else if s == 403 {
            AttemptAction::Forbidden
        } else if 500 <= s <= 599 && attempt < max_retries {
            AttemptAction::Retry { delay_ms: backoff_millis(attempt) as u128 }
        } else {
            AttemptAction::Fail
        },
        None => if attempt >= max_retries {
            AttemptAction::GiveUp
        } else {
            AttemptAction::Retry { delay_ms: backoff_millis(attempt) as u128 }
        },
    }
}

/// The retry policy for answers: a success is delivered, `403` stops at
/// once, `429` is always retried (after the header delay, or the back-off),
/// every server error `500..=599` is retried with the back-off of the
/// attempt while attempts remain, and only the other answers fail; a failed
/// request is retried with the back-off while attempts remain and given up
/// on the last one. The back-off of attempt `n` is `500 × 2^min(n, 5)` ms.
pub proof fn lemma_retry_policy(
    attempt: nat,
    max_retries: nat,
    status: Option<u16>,
    header_delay: Option<u128>,
)
    ensures
        ({
            let a = attempt_action(attempt, max_retries, status, header_delay);
            let backoff = 500 * two_to(if attempt > 5 {
                5
            } else {
                attempt
            });
            &&& (status matches Some(s) && 200 <= s <= 299) ==> a == AttemptAction::Deliver
            &&& status == Some(403u16) ==> a == AttemptAction::Forbidden
            &&& status == Some(429u16) ==> a == AttemptAction::Retry {
                delay_ms: match header_delay {
                    Some(d) => d,
                    None => backoff as u128,
                },
            }
            &&& (status matches Some(s) && 500 <= s <= 599 && attempt < max_retries) ==> a
                == AttemptAction::Retry { delay_ms: backoff as u128 }
            &&& (a == AttemptAction::Fail <==> (status matches Some(s) && !(200 <= s <= 299) && s
                != 403 && s != 429 && !(500 <= s <= 599 && attempt < max_retries)))
            &&& status is None && attempt < max_retries ==> a == AttemptAction::Retry {
                delay_ms: backoff as u128,
            }
            &&& (a == AttemptAction::GiveUp <==> (status is None && attempt >= max_retries))
        }),
{
}

/// Decides what to do after one attempt of an API or image request.
///
/// A rate-limited answer (429) waits for what its headers ask, or backs off;
/// 403 stops at once to avoid insisting against a block; server errors and
/// failed requests are retried with back-off while attempts remain.
pub fn next_attempt_action(
    attempt: usize,
    max_retries: usize,
    status: Option<u16>,
    header_delay: Option<u128>,
) -> (r: AttemptAction)
    ensures
        r == attempt_action(attempt as nat, max_retries as nat, status, header_delay),
{
    match status {
        Some(s) => {
            if 200 <= s && s <= 299 {
                AttemptAction::Deliver
            } else if s == 429 {
                AttemptAction::Retry { delay_ms: retry_delay(header_delay, attempt) }
            } else if s == 403 {
                AttemptAction::Forbidden
            } else if 500 <= s && s <= 599 && attempt < max_retries {
                AttemptAction::Retry { delay_ms: exponential_backoff(attempt) as u128 }
            } else {
                AttemptAction::Fail
            }
        },
        None => {
            if attempt >= max_retries {
                AttemptAction::GiveUp
            } else {
                AttemptAction::Retry { delay_ms: exponential_backoff(attempt) as u128 }
            }
        },
    }
}

/// The two request loops of the client, which differ in their messages.
#[derive(Clone, Copy, Debug, PartialEq, Eq, Structural)]
pub enum RequestKind {
    /// A JSON request to the MangaDex API.
    Api,
    /// An image download from the uploads or AtHome hosts.
    Image,
}

pub open spec fn budget_exhausted_message(kind: RequestKind) -> Seq<char> {
    match kind {
        RequestKind::Api => "MangaDex API request retry budget was exhausted"@,
        RequestKind::Image => "image request retry budget was exhausted"@,
    }
}

/// The attempt after attempt `attempt` when a retry is asked for, if the
/// budget of `max_retries + 1` attempts allows one.
pub open spec fn attempt_after(attempt: nat, max_retries: nat) -> Option<nat> {
    if attempt < max_retries {
        Some(attempt + 1)
    } else {
        None
    }
}

/// A request is sent at most `max_retries + 1` times: the attempts of one
/// request, starting at 0 and each following the one before through
/// `attempt_after`, number at most `max_retries + 1`, and attempt `i` is the
/// `i`-th request.
pub proof fn lemma_attempts_within_budget(attempts: Seq<nat>, max_retries: nat)
    requires
        attempts.len() > 0,
        attempts[0] == 0,
        forall|i: int|
            0 <= i < attempts.len() - 1 ==> attempt_after(#[trigger] attempts[i], max_retries)
                == Some(attempts[i + 1]),
    ensures
        attempts.len() <= max_retries + 1,
        forall|i: int| 0 <= i < attempts.len() ==> #[trigger] attempts[i] == i,
    decreases attempts.len(),
{
    if attempts.len() > 1 {
        let t = attempts.drop_last();
        assert forall|i: int| 0 <= i < t.len() - 1 implies attempt_after(#[trigger] t[i], max_retries)
            == Some(t[i + 1]) by {
            assert(t[i] == attempts[i] && t[i + 1] == attempts[i + 1]);
        }
        lemma_attempts_within_budget(t, max_retries);
        let k = attempts.len() - 2;
        assert(t[k] == k);
        assert(attempt_after(attempts[k], max_retries) == Some(attempts[k + 1]));
        assert forall|i: int| 0 <= i < attempts.len() implies #[trigger] attempts[i] == i by {
            if i < t.len() {
                assert(t[i] == attempts[i]);
            }
        }
    }
}

/// The attempt that follows attempt `attempt` (counted from 0) after a
/// retry, or the rate-limit error when the budget of `max_retries + 1`
/// attempts is spent.
///
/// A request starts at attempt 0 and moves on only through this function,
/// so it is sent at most `max_retries + 1` times.
pub fn next_attempt(kind: RequestKind, attempt: usize, max_retries: usize) -> (r: Result<
    usize,
    AppError,
>)
    ensures
        attempt_after(attempt as nat, max_retries as nat) matches Some(n) ==> r == Ok::<
            usize,
            AppError,
        >(n as usize),
        attempt >= max_retries ==> (r matches Err(AppError::RateLimit(m)) && m@
            == budget_exhausted_message(kind)),
        r matches Ok(n) ==> n <= max_retries,
{
    if attempt < max_retries {
        Ok(attempt + 1)
    } else {
        let m = match kind {
            RequestKind::Api => chars_of("MangaDex API request retry budget was exhausted"),
            RequestKind::Image => chars_of("image request retry budget was exhausted"),
        };
        Err(AppError::RateLimit(string_from_chars(m.as_slice())))
    }
}

// ---------------------------------------------------------------------------
// Feed paging
// ---------------------------------------------------------------------------

/// Paging state of the chapter feed of one manga.
pub struct FeedPaging {
    /// Offset of the next page.
    pub offset: u32,
    /// Page size asked for.
    pub page_limit: u32,
    /// Limit on `offset + limit` that the API accepts.
    pub hard_limit: u32,
}

pub open spec fn paging_past_limit_message(offset: nat, hard_limit: nat) -> Seq<char> {
    "Manga feed cannot be paginated safely past offset "@ + dec_text(offset)
        + " because MangaDex rejects offset + limit above "@ + dec_text(hard_limit)
}

pub open spec fn feed_too_large_message(total: nat, hard_limit: nat) -> Seq<char> {
    "Manga feed contains "@ + dec_text(total) + " entries, which exceeds MangaDex collection pagination limit "@
        + dec_text(hard_limit)
}

pub open spec fn empty_page_message() -> Seq<char> {
    "MangaDex returned an empty chapter page before the feed was complete"@
}

impl FeedPaging {
    /// Paging from the start of the feed.
    pub fn new(page_limit: u32, hard_limit: u32) -> (r: FeedPaging)
        ensures
            r.offset == 0,
            r.page_limit == page_limit,
            r.hard_limit == hard_limit,
    {
        FeedPaging { offset: 0, page_limit, hard_limit }
    }

    /// The next page to ask for, as `(offset, limit)`.
    ///
    /// Paging stops with an error once the offset reaches the hard limit;
    /// otherwise the limit is the page size, shortened so that
    /// `offset + limit` never exceeds the hard limit.
    pub fn next_request(&self) -> (r: Result<(u32, u32), AppError>)
        ensures
            self.offset >= self.hard_limit ==> (r matches Err(AppError::Api(m)) && m@
                == paging_past_limit_message(self.offset as nat, self.hard_limit as nat)),
            self.offset < self.hard_limit ==> r == Ok::<(u32, u32), AppError>(
                (
                    self.offset,
                    if self.page_limit <= self.hard_limit - self.offset {
                        self.page_limit
                    } else {
                        (self.hard_limit - self.offset) as u32
                    },
                ),
            ),
            r matches Ok((o, l)) ==> o < self.hard_limit && o + l <= self.hard_limit,
    {
        if self.offset >= self.hard_limit {
            let mut m = chars_of("Manga feed cannot be paginated safely past offset ");
            push_all(&mut m, u64_text(self.offset as u64).as_slice());
            push_str(&mut m, " because MangaDex rejects offset + limit above ");
            push_all(&mut m, u64_text(self.hard_limit as u64).as_slice());
            return Err(AppError::Api(string_from_chars(m.as_slice())));
        }
        let room = self.hard_limit - self.offset;
        let limit = if self.page_limit <= room {
            self.page_limit
        } else {
            room
        };
        Ok((self.offset, limit))
    }

    /// Records a received page: its `result` field, the total the API
    /// reports and the number of chapters in it. Gives `true` when the feed
    /// is complete.
    pub fn accept_page(&mut self, result: &str, total: u32, page_len: u32) -> (r: Result<
        bool,
        AppError,
    >)
        requires
            old(self).offset + page_len <= u32::MAX,
        ensures
            result@ != "ok"@ ==> (r matches Err(AppError::Api(m)) && m@ == bad_result_message(
                result@,
            )),
            result@ == "ok"@ && total > old(self).hard_limit ==> (r matches Err(AppError::Api(m))
                && m@ == feed_too_large_message(total as nat, old(self).hard_limit as nat)),
            result@ == "ok"@ && total <= old(self).hard_limit && page_len == 0 ==> (r matches Err(
                AppError::Api(m),
            ) && m@ == empty_page_message()),
            result@ == "ok"@ && total <= old(self).hard_limit && page_len > 0 ==> r
                == Ok::<bool, AppError>(old(self).offset + page_len >= total),
            r is Ok ==> final(self).offset == old(self).offset + page_len && final(self).offset
                > old(self).offset,
            final(self).page_limit == old(self).page_limit,
            final(self).hard_limit == old(self).hard_limit,
    {
        ensure_success_result(result)?;
        if total > self.hard_limit {
            let mut m = chars_of("Manga feed contains ");
            push_all(&mut m, u64_text(total as u64).as_slice());
            push_str(&mut m, " entries, which exceeds MangaDex collection pagination limit ");
            push_all(&mut m, u64_text(self.hard_limit as u64).as_slice());
            return Err(AppError::Api(string_from_chars(m.as_slice())));
        }
        if page_len == 0 {
            let m = chars_of("MangaDex returned an empty chapter page before the feed was complete");
            return Err(AppError::Api(string_from_chars(m.as_slice())));
        }
        self.offset = self.offset + page_len;
        Ok(self.offset >= total)
    }
}

// ---------------------------------------------------------------------------
// URLs and messages
// ---------------------------------------------------------------------------

/// The public URL of a cover image on the uploads host.
pub fn cover_image_url(upload_base_url: &str, manga_id: &str, file_name: &str) -> (r: String)
    ensures
        r@ == strip_end(upload_base_url@, CharClass::Slash) + "/covers/"@ + manga_id@ + "/"@
            + file_name@,
{
    let base = chars_of(upload_base_url);
    let mut url = strip_end_chars(base.as_slice(), CharClass::Slash);
    push_str(&mut url, "/covers/");
    push_str(&mut url, manga_id);
    push_str(&mut url, "/");
    push_str(&mut url, file_name);
    string_from_chars(url.as_slice())
}

/// The URL of an API path under the API base URL.
pub fn api_url(api_base_url: &str, path: &str) -> (r: String)
    ensures
        r@ == strip_end(api_base_url@, CharClass::Slash) + path@,
{
    let base = chars_of(api_base_url);
    let mut url = strip_end_chars(base.as_slice(), CharClass::Slash);
    push_str(&mut url, path);
    string_from_chars(url.as_slice())
}

/// Maximum number of characters of an error body summary, before `...`.
pub const SUMMARY_CHARS: usize = 300;

/// An error body summary: white space collapsed, cut to 300 characters
/// followed by `...` when longer.
pub open spec fn body_summary(body: Seq<char>) -> Seq<char> {
    let n = collapse_ws(body);
    if n.len() <= SUMMARY_CHARS {
        n
    } else {
        n.take(SUMMARY_CHARS as int) + "..."@
    }
}

/// Shortens an error body into a readable message for the terminal.
pub fn summarize_body(body: &str) -> (r: String)
    ensures
        r@ == body_summary(body@),
{
    let chars = chars_of(body);
    let normalized = collapse_whitespace(chars.as_slice());
    if normalized.len() <= SUMMARY_CHARS {
        return string_from_chars(normalized.as_slice());
    }
    let mut preview = slice_chars(normalized.as_slice(), 0, SUMMARY_CHARS);
    push_str(&mut preview, "...");
    string_from_chars(preview.as_slice())
}

} // verus!
