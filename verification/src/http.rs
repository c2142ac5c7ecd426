//! HTTP fetch policy: per-host pacing with an EWMA of the round-trip
//! time, pre-request delay computation, conditional-request headers,
//! user-agent rotation, and the retry decision. The socket work happens
//! outside the library; every decision here is a pure function of the
//! values passed in.

use vstd::prelude::*;

use crate::models::Page;

verus! {

/// EWMA with alpha = 1/8 over round-trip times, in whole microseconds:
/// ewma' = (7 * ewma + sample) / 8.
pub open spec fn spec_ewma_update(prev: u64, sample: u64) -> u64 {
    (((prev * 7) + sample) / 8) as u64
}

pub fn ewma_update(prev: u64, sample: u64) -> (r: u64)
    ensures
        r == spec_ewma_update(prev, sample),
{
    let wide: u128 = (prev as u128) * 7 + (sample as u128);
    (wide / 8) as u64
}

/// Per-host pacing state: when the last request went out and the
/// smoothed round-trip time, in microseconds.
#[derive(Debug, Clone, Copy)]
pub struct HostState {
    pub last_request_at_ms: u64,
    pub ewma_rtt_micros: u64,
}

/// The host-dependent jitter: at least 500 ms, plus an offset derived
/// from the host name length.
pub open spec fn spec_jitter_ms(host_len: int) -> int {
    500 + host_len % 1000
}

/// The required spacing before a request to a known host, in
/// microseconds: twice the smoothed round-trip time plus the jitter.
pub open spec fn spec_required_gap_micros(st: HostState, host_len: int) -> int {
    2 * st.ewma_rtt_micros + spec_jitter_ms(host_len) * 1000
}

/// The delay to sleep before a request, in milliseconds. A first-ever
/// request to a host waits a small host-dependent baseline of 1 to 5
/// seconds; later requests wait out the remainder of the required gap.
pub open spec fn spec_pre_request_delay_ms(
    st: Option<HostState>,
    host_len: int,
    now_ms: u64,
) -> int {
    match st {
        None => 1000 * (1 + host_len % 5),
        Some(s) => {
            let elapsed_micros = (now_ms - s.last_request_at_ms) * 1000;
            let required = spec_required_gap_micros(s, host_len);
            if elapsed_micros < required {
                (required - elapsed_micros) / 1000
            } else {
                0
            }
        },
    }
}

/// Computes the pre-request delay for one host.
pub fn pre_request_delay_ms(st: &Option<HostState>, host_len: usize, now_ms: u64) -> (r: u64)
    requires
        match st {
            Some(s) => s.last_request_at_ms <= now_ms && s.ewma_rtt_micros
                < 0x4000000000000000,
            None => true,
        },
    ensures
        r == spec_pre_request_delay_ms(*st, host_len as int, now_ms),
{
    match st {
        None => {
            let base: u64 = 1 + (host_len as u64) % 5;
            1000 * base
        },
        Some(s) => {
            let elapsed: u128 = ((now_ms - s.last_request_at_ms) as u128) * 1000;
            let jitter: u128 = (500 + (host_len as u128) % 1000) * 1000;
            let required: u128 = 2 * (s.ewma_rtt_micros as u128) + jitter;
            if elapsed < required {
                (((required - elapsed) / 1000) as u64)
            } else {
                0
            }
        },
    }
}

/// Records a finished request: the host's gate time moves to now and
/// the smoothed round-trip time absorbs the sample; a first sample
/// becomes the estimate itself.
pub open spec fn spec_post_request_update(
    st: Option<HostState>,
    rtt_micros: u64,
    now_ms: u64,
) -> HostState {
    match st {
        None => HostState { last_request_at_ms: now_ms, ewma_rtt_micros: rtt_micros },
        Some(s) => HostState {
            last_request_at_ms: now_ms,
            ewma_rtt_micros: spec_ewma_update(s.ewma_rtt_micros, rtt_micros),
        },
    }
}

pub fn post_request_update(st: &Option<HostState>, rtt_micros: u64, now_ms: u64) -> (r:
    HostState)
    ensures
        r == spec_post_request_update(*st, rtt_micros, now_ms),
{
    match st {
        None => HostState { last_request_at_ms: now_ms, ewma_rtt_micros: rtt_micros },
        Some(s) => HostState {
            last_request_at_ms: now_ms,
            ewma_rtt_micros: ewma_update(s.ewma_rtt_micros, rtt_micros),
        },
    }
}

/// The conditional-request headers for a URL: If-None-Match when a
/// stored page carries an entity tag, If-Modified-Since when it carries
/// a modification date, in that order; nothing otherwise.
pub fn conditional_headers(page: &Option<Page>) -> (r: Vec<(String, String)>)
    ensures
        match page {
            None => r@.len() == 0,
            Some(p) => {
                &&& r@.len() == (if p.etag is Some {
                    1int
                } else {
                    0int
                }) + (if p.last_modified is Some {
                    1int
                } else {
                    0int
                })
                &&& (p.etag matches Some(e) ==> r@[0].0@ == "If-None-Match"@ && r@[0].1@
                    == e@)
                &&& (p.last_modified matches Some(lm) ==> {
                    let ix: int = if p.etag is Some {
                        1
                    } else {
                        0
                    };
                    r@[ix].0@ == "If-Modified-Since"@ && r@[ix].1@ == lm@
                })
            },
        },
{
    let mut r: Vec<(String, String)> = Vec::new();
    match page {
        None => {},
        Some(p) => {
            match &p.etag {
                Some(e) => {
                    r.push(
                        (String::from_str("If-None-Match"), String::from_str(e.as_str())),
                    );
                },
                None => {},
            }
            match &p.last_modified {
                Some(lm) => {
                    r.push(
                        (
                            String::from_str("If-Modified-Since"),
                            String::from_str(lm.as_str()),
                        ),
                    );
                },
                None => {},
            }
        },
    }
    r
}

/// One of the five desktop browser identities, selected by the seed.
pub open spec fn spec_user_agent(i: int) -> Seq<char> {
    if i == 0 {
        "Mozilla/5.0 (Windows NT 10.0; Win64; x64) AppleWebKit/537.36 (KHTML, like Gecko) Chrome/109.0.0.0 Safari/537.36"@
    } else if i == 1 {
        "Mozilla/5.0 (Macintosh; Intel Mac OS X 10_15_7) AppleWebKit/537.36 (KHTML, like Gecko) Chrome/109.0.0.0 Safari/537.36"@
    } else if i == 2 {
        "Mozilla/5.0 (Windows NT 10.0; Win64; x64) AppleWebKit/537.36 (KHTML, like Gecko) Chrome/110.0.0.0 Safari/537.36"@
    } else if i == 3 {
        "Mozilla/5.0 (Macintosh; Intel Mac OS X 10_15_7) AppleWebKit/605.1.15 (KHTML, like Gecko) Version/16.3 Safari/605.1.15"@
    } else {
        "Mozilla/5.0 (X11; Linux x86_64) AppleWebKit/537.36 (KHTML, like Gecko) Chrome/108.0.0.0 Safari/537.36"@
    }
}

/// Rotates through the user-agent pool by the given seed.
pub fn get_random_user_agent(seed: u64) -> (r: &'static str)
    ensures
        r@ == spec_user_agent((seed % 5) as int),
{
    let ix = seed % 5;
    if ix == 0 {
        "Mozilla/5.0 (Windows NT 10.0; Win64; x64) AppleWebKit/537.36 (KHTML, like Gecko) Chrome/109.0.0.0 Safari/537.36"
    } else if ix == 1 {
        "Mozilla/5.0 (Macintosh; Intel Mac OS X 10_15_7) AppleWebKit/537.36 (KHTML, like Gecko) Chrome/109.0.0.0 Safari/537.36"
    } else if ix == 2 {
        "Mozilla/5.0 (Windows NT 10.0; Win64; x64) AppleWebKit/537.36 (KHTML, like Gecko) Chrome/110.0.0.0 Safari/537.36"
    } else if ix == 3 {
        "Mozilla/5.0 (Macintosh; Intel Mac OS X 10_15_7) AppleWebKit/605.1.15 (KHTML, like Gecko) Version/16.3 Safari/605.1.15"
    } else {
        "Mozilla/5.0 (X11; Linux x86_64) AppleWebKit/537.36 (KHTML, like Gecko) Chrome/108.0.0.0 Safari/537.36"
    }
}

/// What to do after one fetch attempt.
#[derive(Debug, Clone, Copy, PartialEq, Eq, Structural)]
pub enum RetryDecision {
    /// Hand the response to the caller, whatever its status.
    ReturnResponse,
    /// Try again after the base backoff, in milliseconds (the runtime
    /// adds random jitter).
    RetryAfterMs(u64),
    /// Attempts are exhausted; report failure.
    GiveUp,
}

/// The exponential backoff base for a retry, starting at 10 ms and
/// growing tenfold per attempt.
pub open spec fn spec_backoff_ms(attempt: u32) -> int {
    if attempt <= 1 {
        10
    } else if attempt == 2 {
        100
    } else {
        1000
    }
}

/// Decides the retry policy after an attempt: a response below 500 is
/// returned to the caller (a 4xx counts as a completed exchange); a
/// server error or a transport failure is retried with exponential
/// backoff up to 3 attempts, then given up.
pub fn retry_decision(attempt: u32, status: Option<u16>) -> (r: RetryDecision)
    requires
        attempt >= 1,
    ensures
        (match status {
            Some(s) => s < 500,
            None => false,
        }) ==> r == RetryDecision::ReturnResponse,
        (match status {
            Some(s) => s >= 500,
            None => true,
        }) ==> (if attempt < 3 {
            r == RetryDecision::RetryAfterMs(spec_backoff_ms(attempt) as u64)
        } else {
            r == RetryDecision::GiveUp
        }),
{
    match status {
        Some(s) if s < 500 => RetryDecision::ReturnResponse,
        _ => {
            if attempt < 3 {
                let base: u64 = if attempt <= 1 {
                    10
                } else {
                    100
                };
                RetryDecision::RetryAfterMs(base)
            } else {
                RetryDecision::GiveUp
            }
        },
    }
}

} // verus!
