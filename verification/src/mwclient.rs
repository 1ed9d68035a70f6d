//! Talking to a wiki: what is asked of its API, what its replies mean, and when a
//! request is tried again.
pub mod info;
pub mod revisions;
pub mod users;

use crate::json::{
    field_in, get_in, str_in, text_in, Json, JsonValue,
};
use crate::outside::{url_encode, url_encoded};
use crate::pipeline::opt_text;
use crate::text::{
    chars_of, concat3, concat_text, decimal, decimal_text, fits_u64, number_of, parse_u64,
    reading_undoes_writing, same_text, string_of,
};
use crate::whocolor_template_strip::{slice, slice_bytes};
use vstd::prelude::*;
use vstd::utf8::{encode_utf8, is_char_boundary};

verus! {

/// What a request says of its sender.
pub const DEFAULT_USER_AGENT: &'static str =
    "wikiwho_rust-mwclient/0.1.0 (https://github.com/WikiEducationFoundation; sage@wikiedu.org)";

/// The most user ids in one request.
pub const MW_USERS_BATCH_SIZE: usize = 50;

/// The nanoseconds of a second.
pub const SECOND: u128 = 1_000_000_000;

/// The nanoseconds of the longest time.
pub const LONGEST: u128 = 18446744073709551615_999999999;

/// Why a wiki gave no answer.
#[derive(Debug)]
pub enum MwError {
    /// The request failed on its way.
    Http(String),
    /// The wiki answered with an error.
    Api { code: String, info: String },
    /// There is no such page or revision.
    PageMissing { page_id: u64 },
    /// The wiki kept asking to wait.
    RateLimitBudgetExhausted { slept_seconds: u64, last_retry_after_seconds: u64 },
    /// The history ended before the revision that was asked for.
    PaginationEndedEarly { page_id: u64, end_rev_id: u64 },
    /// Every try failed.
    Retry(String),
    /// The answer is not of the form that was expected.
    Shape(String),
    /// The answer is no JSON.
    Json(String),
}

/// The model of an error.
pub enum MwErrorView {
    Http(Seq<char>),
    Api(Seq<char>, Seq<char>),
    PageMissing(u64),
    RateLimitBudgetExhausted(u64, u64),
    PaginationEndedEarly(u64, u64),
    Retry(Seq<char>),
    Shape(Seq<char>),
    Json(Seq<char>),
}

impl View for MwError {
    type V = MwErrorView;

    open spec fn view(&self) -> MwErrorView {
        match self {
            MwError::Http(s) => MwErrorView::Http(s@),
            MwError::Api { code, info } => MwErrorView::Api(code@, info@),
            MwError::PageMissing { page_id } => MwErrorView::PageMissing(*page_id),
            MwError::RateLimitBudgetExhausted { slept_seconds, last_retry_after_seconds } => {
                MwErrorView::RateLimitBudgetExhausted(
                    *slept_seconds,
                    *last_retry_after_seconds,
                )
            },
            MwError::PaginationEndedEarly { page_id, end_rev_id } => {
                MwErrorView::PaginationEndedEarly(*page_id, *end_rev_id)
            },
            MwError::Retry(s) => MwErrorView::Retry(s@),
            MwError::Shape(s) => MwErrorView::Shape(s@),
            MwError::Json(s) => MwErrorView::Json(s@),
        }
    }
}

/// What an error says.
pub open spec fn error_text(e: MwErrorView) -> Seq<char> {
    match e {
        MwErrorView::Http(s) => "HTTP transport error: "@ + s,
        MwErrorView::Api(code, info) => "MW API error: "@ + code + ": "@ + info,
        MwErrorView::PageMissing(page_id) => "article missing (page_id="@ + decimal(page_id as nat)
            + ")"@,
        MwErrorView::RateLimitBudgetExhausted(slept, last) => {
            "rate-limit budget exhausted after "@ + decimal(slept as nat)
                + "s; last Retry-After was "@ + decimal(last as nat) + "s"@
        },
        MwErrorView::PaginationEndedEarly(page_id, end_rev_id) => {
            "pagination ended before reaching rev_id="@ + decimal(end_rev_id as nat)
                + " for page_id="@ + decimal(page_id as nat)
        },
        MwErrorView::Retry(s) => "exhausted retries: "@ + s,
        MwErrorView::Shape(s) => "unexpected response shape: "@ + s,
        MwErrorView::Json(s) => "JSON error: "@ + s,
    }
}

impl MwError {
    /// An answer of an unexpected form.
    pub fn shape(s: &str) -> (r: Self)
        ensures
            r@ == MwErrorView::Shape(s@),
    {
        MwError::Shape(s.to_owned())
    }

    /// What the error says.
    pub fn message(&self) -> (r: String)
        ensures
            r@ == error_text(self@),
    {
        match self {
            MwError::Http(s) => concat_text("HTTP transport error: ", s.as_str()),
            MwError::Api { code, info } => {
                let head = concat3("MW API error: ", code.as_str(), ": ");
                concat_text(head.as_str(), info.as_str())
            },
            MwError::PageMissing { page_id } => concat3(
                "article missing (page_id=",
                decimal_text(*page_id).as_str(),
                ")",
            ),
            MwError::RateLimitBudgetExhausted { slept_seconds, last_retry_after_seconds } => {
                let head = concat3(
                    "rate-limit budget exhausted after ",
                    decimal_text(*slept_seconds).as_str(),
                    "s; last Retry-After was ",
                );
                concat3(head.as_str(), decimal_text(*last_retry_after_seconds).as_str(), "s")
            },
            MwError::PaginationEndedEarly { page_id, end_rev_id } => {
                let head = concat3(
                    "pagination ended before reaching rev_id=",
                    decimal_text(*end_rev_id).as_str(),
                    " for page_id=",
                );
                concat_text(head.as_str(), decimal_text(*page_id).as_str())
            },
            MwError::Retry(s) => concat_text("exhausted retries: ", s.as_str()),
            MwError::Shape(s) => concat_text("unexpected response shape: ", s.as_str()),
            MwError::Json(s) => concat_text("JSON error: ", s.as_str()),
        }
    }
}

/// How a wiki is talked to. Times are in nanoseconds.
pub struct MwClient {
    pub api_url: String,
    /// Where the wiki's REST API is.
    pub rest_base_url: String,
    pub user_agent: String,
    /// The wait between two requests of one history.
    pub between_batches: u128,
    /// The most time spent waiting because the wiki asks for it.
    pub retry_budget: u128,
    pub retry_max_attempts: u32,
    /// The wait after the first try that failed.
    pub base_backoff: u128,
    /// The most time that a request may take.
    pub request_timeout: u128,
}

/// The model of a client.
pub struct ClientView {
    pub api_url: Seq<char>,
    pub rest_base_url: Seq<char>,
    pub user_agent: Seq<char>,
    pub between_batches: int,
    pub retry_budget: int,
    pub retry_max_attempts: int,
    pub base_backoff: int,
    pub request_timeout: int,
}

impl View for MwClient {
    type V = ClientView;

    open spec fn view(&self) -> ClientView {
        ClientView {
            api_url: self.api_url@,
            rest_base_url: self.rest_base_url@,
            user_agent: self.user_agent@,
            between_batches: self.between_batches as int,
            retry_budget: self.retry_budget as int,
            retry_max_attempts: self.retry_max_attempts as int,
            base_backoff: self.base_backoff as int,
            request_timeout: self.request_timeout as int,
        }
    }
}

impl ClientView {
    /// The times are times, and something is tried.
    pub open spec fn ok(self) -> bool {
        &&& self.between_batches <= LONGEST
        &&& self.retry_budget <= LONGEST
        &&& self.base_backoff <= LONGEST
        &&& self.request_timeout <= LONGEST
        &&& self.retry_max_attempts >= 1
    }
}

/// A client with the usual times.
pub open spec fn usual_client(api_url: Seq<char>, rest_base_url: Seq<char>) -> ClientView {
    ClientView {
        api_url,
        rest_base_url,
        user_agent: DEFAULT_USER_AGENT@,
        between_batches: 300_000_000,
        retry_budget: 300 * SECOND,
        retry_max_attempts: 5,
        base_backoff: SECOND as int,
        request_timeout: 180 * SECOND,
    }
}

/// The client of a language's Wikipedia.
pub open spec fn client_for_lang(lang: Seq<char>) -> ClientView {
    usual_client(
        "https://"@ + lang + ".wikipedia.org/w/api.php"@,
        "https://"@ + lang + ".wikipedia.org/api/rest_v1"@,
    )
}

/// Puts a client together.
pub struct MwClientBuilder {
    pub client: MwClient,
}

impl View for MwClientBuilder {
    type V = ClientView;

    open spec fn view(&self) -> ClientView {
        self.client@
    }
}

/// A client with the usual times.
fn make_client(api_url: String, rest_base_url: String) -> (r: MwClient)
    ensures
        r@ == usual_client(api_url@, rest_base_url@),
{
    MwClient {
        api_url,
        rest_base_url,
        user_agent: DEFAULT_USER_AGENT.to_owned(),
        between_batches: 300_000_000,
        retry_budget: 300 * SECOND,
        retry_max_attempts: 5,
        base_backoff: SECOND,
        request_timeout: 180 * SECOND,
    }
}

impl MwClientBuilder {
    /// Starts from a language, for its Wikipedia.
    pub fn for_lang(lang: &str) -> (r: Self)
        ensures
            r@ == client_for_lang(lang@),
            r@.ok(),
    {
        MwClientBuilder {
            client: make_client(
                concat3("https://", lang, ".wikipedia.org/w/api.php"),
                concat3("https://", lang, ".wikipedia.org/api/rest_v1"),
            ),
        }
    }

    /// Starts from where the API is. Where the REST API is stays open.
    pub fn for_api_url(url: &str) -> (r: Self)
        ensures
            r@ == usual_client(url@, Seq::empty()),
            r@.ok(),
    {
        MwClientBuilder { client: make_client(url.to_owned(), String::new()) }
    }

    /// Sets where the REST API is.
    pub fn rest_base_url(self, url: &str) -> (r: Self)
        ensures
            r@ == (ClientView { rest_base_url: url@, ..self@ }),
    {
        let mut b = self;
        b.client.rest_base_url = url.to_owned();
        b
    }

    /// Sets what a request says of its sender.
    pub fn user_agent(self, ua: &str) -> (r: Self)
        ensures
            r@ == (ClientView { user_agent: ua@, ..self@ }),
    {
        let mut b = self;
        b.client.user_agent = ua.to_owned();
        b
    }

    /// Sets the wait between two requests of one history.
    pub fn between_batches(self, d: u128) -> (r: Self)
        requires
            d <= LONGEST,
        ensures
            r@ == (ClientView { between_batches: d as int, ..self@ }),
    {
        let mut b = self;
        b.client.between_batches = d;
        b
    }

    /// Sets the most time spent waiting because the wiki asks for it.
    pub fn retry_budget(self, d: u128) -> (r: Self)
        requires
            d <= LONGEST,
        ensures
            r@ == (ClientView { retry_budget: d as int, ..self@ }),
    {
        let mut b = self;
        b.client.retry_budget = d;
        b
    }

    /// Sets how often a request is tried: once at least.
    pub fn retry_max_attempts(self, n: u32) -> (r: Self)
        ensures
            r@ == (ClientView {
                retry_max_attempts: if n == 0 {
                    1
                } else {
                    n as int
                },
                ..self@
            }),
    {
        let mut b = self;
        b.client.retry_max_attempts = if n == 0 {
            1
        } else {
            n
        };
        b
    }

    /// Sets the wait after the first try that failed.
    pub fn base_backoff(self, d: u128) -> (r: Self)
        requires
            d <= LONGEST,
        ensures
            r@ == (ClientView { base_backoff: d as int, ..self@ }),
    {
        let mut b = self;
        b.client.base_backoff = d;
        b
    }

    /// Sets the most time that a request may take.
    pub fn request_timeout(self, d: u128) -> (r: Self)
        requires
            d <= LONGEST,
        ensures
            r@ == (ClientView { request_timeout: d as int, ..self@ }),
    {
        let mut b = self;
        b.client.request_timeout = d;
        b
    }

    /// The client.
    pub fn build(self) -> (r: MwClient)
        ensures
            r@ == self@,
    {
        self.client
    }
}

/// Two to the power of `n`.
pub open spec fn power_of_two(n: nat) -> nat
    decreases n,
{
    if n == 0 {
        1
    } else {
        2 * power_of_two((n - 1) as nat)
    }
}

/// The wait after the `attempt`th try failed: it doubles with each, as far as it
/// can.
pub open spec fn backoff(base: int, attempt: int) -> int {
    let doublings = if attempt <= 1 {
        0
    } else {
        attempt - 1
    };
    let factor = if doublings < 32 {
        power_of_two(doublings as nat) as int
    } else {
        u32::MAX as int
    };
    if base * factor > LONGEST {
        LONGEST as int
    } else {
        base * factor
    }
}

proof fn lemma_power_bound(n: nat)
    ensures
        power_of_two(n) >= 1,
        n < 32 ==> power_of_two(n) <= 0x80000000,
{
    reveal_with_fuel(power_of_two, 33);
    if n >= 32 {
        lemma_power_positive(n);
    }
}

proof fn lemma_power_positive(n: nat)
    ensures
        power_of_two(n) >= 1,
    decreases n,
{
    if n > 0 {
        lemma_power_positive((n - 1) as nat);
    }
}

impl MwClient {
    /// The client of a language's Wikipedia.
    pub fn new(lang: &str) -> (r: Self)
        ensures
            r@ == client_for_lang(lang@),
            r@.ok(),
    {
        MwClientBuilder::for_lang(lang).build()
    }

    /// Starts from a language, for its Wikipedia.
    pub fn builder(lang: &str) -> (r: MwClientBuilder)
        ensures
            r@ == client_for_lang(lang@),
            r@.ok(),
    {
        MwClientBuilder::for_lang(lang)
    }

    /// Where the API is.
    pub fn api_url(&self) -> (r: &str)
        ensures
            r@ == self@.api_url,
    {
        self.api_url.as_str()
    }

    /// Where the REST API is.
    pub fn rest_base_url(&self) -> (r: &str)
        ensures
            r@ == self@.rest_base_url,
    {
        self.rest_base_url.as_str()
    }

    /// What a request says of its sender.
    pub fn user_agent(&self) -> (r: &str)
        ensures
            r@ == self@.user_agent,
    {
        self.user_agent.as_str()
    }

    /// The wait between two requests of one history.
    pub fn between_batches(&self) -> (r: u128)
        ensures
            r == self@.between_batches,
    {
        self.between_batches
    }

    /// The wait after the `attempt`th try failed.
    pub fn backoff_for(&self, attempt: u64) -> (r: u128)
        requires
            self@.ok(),
        ensures
            r == backoff(self@.base_backoff, attempt as int),
            r <= LONGEST,
    {
        let doublings: u64 = if attempt <= 1 {
            0
        } else {
            attempt - 1
        };
        let mut factor: u128 = u32::MAX as u128;
        if doublings < 32 {
            factor = 1;
            let mut k: u64 = 0;
            while k < doublings
                invariant
                    k <= doublings < 32,
                    factor == power_of_two(k as nat),
                decreases doublings - k,
            {
                proof {
                    lemma_power_bound(k as nat);
                }
                factor = factor * 2;
                k = k + 1;
            }
        }
        proof {
            lemma_power_bound(doublings as nat);
            let base = self.base_backoff as int;
            let f = factor as int;
            assert(1 <= f <= u32::MAX);
            assert(base * f <= LONGEST * u32::MAX) by (nonlinear_arith)
                requires
                    0 <= base <= LONGEST,
                    0 <= f <= u32::MAX,
            ;
        }
        let wait: u128 = self.base_backoff * factor;
        if wait > LONGEST {
            LONGEST
        } else {
            wait
        }
    }
}

/// How often a request was tried, and how long the wiki made it wait.
#[derive(Debug, Clone, Copy, PartialEq, Eq, Structural)]
pub struct RetryState {
    pub attempt: u64,
    pub slept: u128,
}

/// What came of a try.
#[derive(Debug)]
pub enum HttpEvent {
    /// It failed on its way.
    Failed { timeout: bool, connect: bool, request: bool, message: String },
    /// It was answered. The wait that the answer asks for is as it is written.
    Answered { status: u16, retry_after: Option<String> },
}

/// The model of what came of a try.
pub enum HttpView {
    Failed(bool, Seq<char>),
    Answered(int, Option<Seq<char>>),
}

impl View for HttpEvent {
    type V = HttpView;

    open spec fn view(&self) -> HttpView {
        match self {
            HttpEvent::Failed { timeout, connect, request, message } => HttpView::Failed(
                *timeout || *connect || *request,
                message@,
            ),
            HttpEvent::Answered { status, retry_after } => HttpView::Answered(
                *status as int,
                opt_text(*retry_after),
            ),
        }
    }
}

/// What to do after a try.
#[derive(Debug)]
pub enum RetryAction {
    /// Wait, and try again.
    Again(u128),
    /// Give up.
    Fail(MwError),
    /// Wait, and give up.
    WaitThenFail(u128, MwError),
    /// Give up because every try failed; the answer says why.
    GiveUp,
    /// Give up because the answer is none; it says why.
    Refused,
    /// Take the answer.
    Accept,
}

/// The model of what to do after a try.
pub enum RetryView {
    Again(int),
    Fail(MwErrorView),
    WaitThenFail(int, MwErrorView),
    GiveUp,
    Refused,
    Accept,
}

impl View for RetryAction {
    type V = RetryView;

    open spec fn view(&self) -> RetryView {
        match self {
            RetryAction::Again(d) => RetryView::Again(*d as int),
            RetryAction::Fail(e) => RetryView::Fail(e@),
            RetryAction::WaitThenFail(d, e) => RetryView::WaitThenFail(*d as int, e@),
            RetryAction::GiveUp => RetryView::GiveUp,
            RetryAction::Refused => RetryView::Refused,
            RetryAction::Accept => RetryView::Accept,
        }
    }
}

/// The wait that an answer asks for; the usual one where it does not say.
pub open spec fn asked_wait(c: ClientView, attempt: int, retry_after: Option<Seq<char>>) -> int {
    match retry_after {
        Some(h) => match fits_u64(number_of(h)) {
            Some(s) => s * SECOND,
            None => backoff(c.base_backoff, attempt),
        },
        None => backoff(c.base_backoff, attempt),
    }
}

/// The wiki made the request wait for too long.
pub open spec fn budget_exhausted(slept: int, asked: int) -> MwErrorView {
    MwErrorView::RateLimitBudgetExhausted(
        (slept / SECOND as int) as u64,
        (asked / SECOND as int) as u64,
    )
}

/// What to do after the `attempt`th try, and how long the wiki made the request wait
/// by then. `plain` is whether a plain text was asked for: an answer of 404 then says
/// that there is no such page, and the last failure of the wiki is told like any
/// other answer that is none.
pub open spec fn retry_step(
    c: ClientView,
    attempt: int,
    slept: int,
    e: HttpView,
    plain: bool,
) -> (int, RetryView) {
    match e {
        HttpView::Failed(transient, message) => if transient && attempt < c.retry_max_attempts {
            (slept, RetryView::Again(backoff(c.base_backoff, attempt)))
        } else {
            (slept, RetryView::Fail(MwErrorView::Http(message)))
        },
        HttpView::Answered(status, retry_after) => {
            if status == 429 {
                let asked = asked_wait(c, attempt, retry_after);
                let left = c.retry_budget - slept;
                if left <= 0 {
                    (slept, RetryView::Fail(budget_exhausted(slept, asked)))
                } else if asked <= left {
                    (slept + asked, RetryView::Again(asked))
                } else {
                    (
                        slept + left,
                        RetryView::WaitThenFail(left, budget_exhausted(slept + left, asked)),
                    )
                }
            } else if status == 404 && plain {
                (slept, RetryView::Fail(MwErrorView::PageMissing(0)))
            } else if 500 <= status < 600 {
                if attempt < c.retry_max_attempts {
                    (slept, RetryView::Again(backoff(c.base_backoff, attempt)))
                } else if plain {
                    (slept, RetryView::Refused)
                } else {
                    (slept, RetryView::GiveUp)
                }
            } else if 200 <= status < 300 {
                (slept, RetryView::Accept)
            } else {
                (slept, RetryView::Refused)
            }
        },
    }
}

/// Whether a request that failed on its way may succeed when tried again.
fn transient(timeout: bool, connect: bool, request: bool) -> (r: bool)
    ensures
        r == (timeout || connect || request),
{
    timeout || connect || request
}

impl RetryState {
    /// No try was made.
    pub fn new() -> (r: Self)
        ensures
            r == (RetryState { attempt: 0, slept: 0 }),
    {
        RetryState { attempt: 0, slept: 0 }
    }

    /// One more try.
    pub fn begin(self) -> (r: Self)
        ensures
            r.slept == self.slept,
            r.attempt == (if self.attempt < u64::MAX {
                self.attempt + 1
            } else {
                self.attempt as int
            }),
    {
        RetryState {
            attempt: if self.attempt < u64::MAX {
                self.attempt + 1
            } else {
                self.attempt
            },
            slept: self.slept,
        }
    }
}

impl MwClient {
    /// Decides what to do after a try. `plain` is whether a plain text was asked for.
    pub fn after_try(&self, state: RetryState, event: HttpEvent, plain: bool) -> (r: (
        RetryState,
        RetryAction,
    ))
        requires
            self@.ok(),
            state.slept <= self@.retry_budget,
        ensures
            (r.0.slept as int, r.1@) == retry_step(
                self@,
                state.attempt as int,
                state.slept as int,
                event@,
                plain,
            ),
            r.0.attempt == state.attempt,
            r.0.slept <= self@.retry_budget,
    {
        let again = state.attempt < self.retry_max_attempts as u64;
        match event {
            HttpEvent::Failed { timeout, connect, request, message } => {
                if again && transient(timeout, connect, request) {
                    (state, RetryAction::Again(self.backoff_for(state.attempt)))
                } else {
                    (state, RetryAction::Fail(MwError::Http(message)))
                }
            },
            HttpEvent::Answered { status, retry_after } => {
                if status == 429 {
                    self.after_rate_limit(state, retry_after)
                } else if status == 404 && plain {
                    (state, RetryAction::Fail(MwError::PageMissing { page_id: 0 }))
                } else if 500 <= status && status < 600 {
                    if again {
                        (state, RetryAction::Again(self.backoff_for(state.attempt)))
                    } else if plain {
                        (state, RetryAction::Refused)
                    } else {
                        (state, RetryAction::GiveUp)
                    }
                } else if 200 <= status && status < 300 {
                    (state, RetryAction::Accept)
                } else {
                    (state, RetryAction::Refused)
                }
            },
        }
    }

    /// Decides what to do after the wiki asked to wait.
    fn after_rate_limit(&self, state: RetryState, retry_after: Option<String>) -> (r: (
        RetryState,
        RetryAction,
    ))
        requires
            self@.ok(),
            state.slept <= self@.retry_budget,
        ensures
            (r.0.slept as int, r.1@) == retry_step(
                self@,
                state.attempt as int,
                state.slept as int,
                HttpView::Answered(429, opt_text(retry_after)),
                false,
            ),
            r.0.attempt == state.attempt,
            r.0.slept <= self@.retry_budget,
    {
        let usual = self.backoff_for(state.attempt);
        let asked: u128 = match &retry_after {
            Some(h) => match parse_u64(h.as_str()) {
                Some(s) => s as u128 * SECOND,
                None => usual,
            },
            None => usual,
        };
        proof {
            assert(asked <= LONGEST);
        }
        let left: u128 = self.retry_budget - state.slept;
        if left == 0 {
            return (state, RetryAction::Fail(exhausted(state.slept, asked)));
        }
        if asked <= left {
            (
                RetryState { attempt: state.attempt, slept: state.slept + asked },
                RetryAction::Again(asked),
            )
        } else {
            let slept: u128 = state.slept + left;
            (
                RetryState { attempt: state.attempt, slept },
                RetryAction::WaitThenFail(left, exhausted(slept, asked)),
            )
        }
    }
}

/// The wiki made the request wait for too long.
fn exhausted(slept: u128, asked: u128) -> (r: MwError)
    requires
        slept <= LONGEST,
        asked <= LONGEST,
    ensures
        r@ == budget_exhausted(slept as int, asked as int),
{
    MwError::RateLimitBudgetExhausted {
        slept_seconds: (slept / SECOND) as u64,
        last_retry_after_seconds: (asked / SECOND) as u64,
    }
}

/// The first `n` bytes of a text and an ellipsis; the whole text where it is no
/// longer.
pub open spec fn truncated(s: Seq<char>, n: int) -> Seq<char> {
    if encode_utf8(s).len() <= n {
        s
    } else {
        slice(s, 0, n) + "…"@
    }
}

/// Whether a text can be cut after `n` bytes.
pub open spec fn can_truncate(s: Seq<char>, n: int) -> bool {
    encode_utf8(s).len() <= n || is_char_boundary(encode_utf8(s), n)
}

/// Cuts a text after `n` bytes.
pub fn truncate(s: &str, n: usize) -> (r: String)
    requires
        can_truncate(s@, n as int),
    ensures
        r@ == truncated(s@, n as int),
{
    if s.as_bytes().len() <= n {
        s.to_owned()
    } else {
        proof {
            vstd::utf8::encode_utf8_valid_utf8(s@);
            vstd::utf8::is_char_boundary_start_end_of_seq(encode_utf8(s@));
        }
        let head = slice_bytes(s, 0, n);
        concat_text(head.as_str(), "…")
    }
}

/// The most bytes of an answer that an error quotes.
pub const QUOTED: usize = 300;

/// Why the tries were given up: `status` is the last answer's, as it is written.
pub fn give_up(status: &str, attempt: u64, body: &str) -> (r: MwError)
    requires
        can_truncate(body@, QUOTED as int),
    ensures
        r@ == MwErrorView::Retry(
            "HTTP "@ + status@ + " after "@ + decimal(attempt as nat) + " attempts: "@ + truncated(
                body@,
                QUOTED as int,
            ),
        ),
{
    let head = concat3("HTTP ", status, " after ");
    let count = concat3(head.as_str(), decimal_text(attempt).as_str(), " attempts: ");
    MwError::Retry(concat_text(count.as_str(), truncate(body, QUOTED).as_str()))
}

/// Why an answer is none: `status` is as it is written.
pub fn refused(status: &str, body: &str) -> (r: MwError)
    requires
        can_truncate(body@, QUOTED as int),
    ensures
        r@ == MwErrorView::Shape("HTTP "@ + status@ + ": "@ + truncated(body@, QUOTED as int)),
{
    let head = concat3("HTTP ", status, ": ");
    MwError::Shape(concat_text(head.as_str(), truncate(body, QUOTED).as_str()))
}

/// A text, or another where it is missing.
pub open spec fn text_or(v: Option<Seq<char>>, other: Seq<char>) -> Seq<char> {
    match v {
        Some(s) => s,
        None => other,
    }
}

/// The error that an answer holds.
pub open spec fn api_error(body: Json) -> Option<MwErrorView> {
    match body.field("error"@) {
        Some(e) => Some(
            MwErrorView::Api(
                text_or(text_in(e.field("code"@)), "unknown"@),
                text_or(text_in(e.field("info"@)), Seq::empty()),
            ),
        ),
        None => None,
    }
}

/// Takes an answer, or the error that it holds.
pub fn accept_body(body: JsonValue) -> (r: Result<JsonValue, MwError>)
    ensures
        match r {
            Ok(b) => b == body && api_error(body@) is None,
            Err(e) => api_error(body@) == Some(e@),
        },
{
    if let Some(e) = body.get("error") {
        let code = match str_in(e.get("code")) {
            Some(s) => s.to_owned(),
            None => "unknown".to_owned(),
        };
        let info = match str_in(e.get("info")) {
            Some(s) => s.to_owned(),
            None => String::new(),
        };
        return Err(MwError::Api { code, info });
    }
    Ok(body)
}

/// The rendering that an answer holds. That there is no such revision says that the
/// page is missing.
pub open spec fn rendering(reply: Result<Json, MwErrorView>) -> Result<Seq<char>, MwErrorView> {
    match reply {
        Ok(body) => match text_in(field_in(body.field("parse"@), "text"@)) {
            Some(s) => Ok(s),
            None => Err(MwErrorView::Shape("missing parse.text"@)),
        },
        Err(MwErrorView::Api(code, info)) => if code == "nosuchrevid"@ {
            Err(MwErrorView::PageMissing(0))
        } else {
            Err(MwErrorView::Api(code, info))
        },
        Err(e) => Err(e),
    }
}

/// The model of an answer.
pub open spec fn reply_view(reply: Result<JsonValue, MwError>) -> Result<Json, MwErrorView> {
    match reply {
        Ok(b) => Ok(b@),
        Err(e) => Err(e@),
    }
}

/// The model of a text from the wiki.
pub open spec fn text_reply(r: Result<String, MwError>) -> Result<Seq<char>, MwErrorView> {
    match r {
        Ok(s) => Ok(s@),
        Err(e) => Err(e@),
    }
}

/// The rendering that an answer holds.
pub fn rendered_html(reply: Result<JsonValue, MwError>) -> (r: Result<String, MwError>)
    ensures
        match r {
            Ok(s) => rendering(reply_view(reply)) == Ok::<Seq<char>, MwErrorView>(s@),
            Err(e) => rendering(reply_view(reply)) == Err::<Seq<char>, MwErrorView>(e@),
        },
{
    match reply {
        Ok(body) => match str_in(get_in(body.get("parse"), "text")) {
            Some(s) => Ok(s.to_owned()),
            None => Err(MwError::shape("missing parse.text")),
        },
        Err(MwError::Api { code, info }) => if same_text(code.as_str(), "nosuchrevid") {
            Err(MwError::PageMissing { page_id: 0 })
        } else {
            Err(MwError::Api { code, info })
        },
        Err(e) => Err(e),
    }
}

/// A text without the slashes at its end.
pub open spec fn without_slashes(s: Seq<char>) -> Seq<char>
    decreases s.len(),
{
    if s.len() > 0 && s.last() == '/' {
        without_slashes(s.drop_last())
    } else {
        s
    }
}

/// Where the REST API has a revision of a page.
pub open spec fn page_html_url(base: Seq<char>, title: Seq<char>, rev_id: u64) -> Seq<char> {
    without_slashes(base) + "/page/html/"@ + url_encoded(title) + "/"@ + decimal(rev_id as nat)
}

impl MwClient {
    /// Where the REST API has a revision of a page.
    pub fn parsoid_url(&self, title: &str, rev_id: u64) -> (r: String)
        ensures
            r@ == page_html_url(self@.rest_base_url, title@, rev_id),
    {
        let c = chars_of(self.rest_base_url.as_str());
        let mut n: usize = c.len();
        proof {
            assert(c@.take(n as int) =~= c@);
        }
        while n > 0 && c[n - 1] == '/'
            invariant
                n <= c@.len(),
                without_slashes(c@.take(n as int)) == without_slashes(c@),
            decreases n,
        {
            proof {
                assert(c@.take(n as int).drop_last() =~= c@.take(n - 1));
            }
            n = n - 1;
        }
        let base = string_of(c.as_slice(), 0, n);
        proof {
            assert(base@ =~= c@.take(n as int));
            assert(without_slashes(base@) == base@);
        }
        let head = concat3(base.as_str(), "/page/html/", url_encode(title).as_str());
        concat3(head.as_str(), "/", decimal_text(rev_id).as_str())
    }
}

/// The names and values of what a request asks.
pub open spec fn query(v: Seq<(String, String)>) -> Seq<(Seq<char>, Seq<char>)> {
    v.map_values(|p: (String, String)| (p.0@, p.1@))
}

/// Adds a name and a value to what a request asks.
pub fn push_param(params: &mut Vec<(String, String)>, name: &str, value: &str)
    ensures
        query(final(params)@) == query(old(params)@).push((name@, value@)),
{
    let ghost before = query(params@);
    params.push((name.to_owned(), value.to_owned()));
    proof {
        assert(query(params@) =~= before.push((name@, value@)));
    }
}

/// What every query asks.
pub open spec fn query_head() -> Seq<(Seq<char>, Seq<char>)> {
    seq![("action"@, "query"@), ("format"@, "json"@), ("formatversion"@, "2"@)]
}

/// What every query asks.
pub fn start_query() -> (r: Vec<(String, String)>)
    ensures
        query(r@) == query_head(),
{
    let mut params: Vec<(String, String)> = Vec::new();
    push_param(&mut params, "action", "query");
    push_param(&mut params, "format", "json");
    push_param(&mut params, "formatversion", "2");
    proof {
        assert(query(params@) =~= query_head());
    }
    params
}

/// The longer a request fails the longer the wait: it never shrinks from one try to
/// the next.
pub proof fn backoff_never_shrinks(base: int, attempt: int)
    requires
        0 <= base,
    ensures
        backoff(base, attempt) <= backoff(base, attempt + 1),
{
    let d = if attempt <= 1 {
        0
    } else {
        attempt - 1
    };
    let e = if attempt + 1 <= 1 {
        0
    } else {
        attempt
    };
    lemma_power_bound(d as nat);
    lemma_power_bound(e as nat);
    let f = if d < 32 {
        power_of_two(d as nat) as int
    } else {
        u32::MAX as int
    };
    let g = if e < 32 {
        power_of_two(e as nat) as int
    } else {
        u32::MAX as int
    };
    assert(f <= g);
    assert(base * f <= base * g) by (nonlinear_arith)
        requires
            0 <= base,
            f <= g,
    ;
}

/// What is asked to have a source rendered.
pub open spec fn render_query(title: Seq<char>, wikitext: Seq<char>) -> Seq<
    (Seq<char>, Seq<char>),
> {
    seq![
        ("action"@, "parse"@),
        ("format"@, "json"@),
        ("formatversion"@, "2"@),
        ("prop"@, "text"@),
        ("contentmodel"@, "wikitext"@),
        ("disableeditsection"@, "1"@),
        ("title"@, title),
        ("text"@, wikitext),
    ]
}

/// What is asked to have a source rendered.
pub fn render_params(title: &str, wikitext: &str) -> (r: Vec<(String, String)>)
    ensures
        query(r@) == render_query(title@, wikitext@),
{
    let mut params: Vec<(String, String)> = Vec::new();
    push_param(&mut params, "action", "parse");
    push_param(&mut params, "format", "json");
    push_param(&mut params, "formatversion", "2");
    push_param(&mut params, "prop", "text");
    push_param(&mut params, "contentmodel", "wikitext");
    push_param(&mut params, "disableeditsection", "1");
    push_param(&mut params, "title", title);
    push_param(&mut params, "text", wikitext);
    proof {
        assert(query(params@) =~= render_query(title@, wikitext@));
    }
    params
}

/// Trying comes to an end: an answer is taken just where it says that the request
/// succeeded, a failure is tried again only while tries are left, and what the wiki asks
/// to wait is waited for, as long as the time for that is not used up.
pub proof fn trying_comes_to_an_end(
    c: ClientView,
    attempt: int,
    slept: int,
    e: HttpView,
    plain: bool,
)
    requires
        c.ok(),
        0 <= c.base_backoff,
        0 <= slept <= c.retry_budget,
    ensures
        ({
            let (after, action) = retry_step(c, attempt, slept, e, plain);
            let status = match e {
                HttpView::Answered(n, _) => n,
                HttpView::Failed(_, _) => 0,
            };
            &&& slept <= after <= c.retry_budget
            &&& action is Accept <==> 200 <= status < 300
            &&& action is Again && status != 429 ==> attempt < c.retry_max_attempts && after
                == slept
            &&& action is Again && status == 429 ==> action->Again_0 == after - slept
            &&& status == 429 && slept == c.retry_budget ==> action is Fail
            &&& 500 <= status < 600 && attempt >= c.retry_max_attempts ==> action is GiveUp
                || action is Refused
            &&& status == 404 && plain ==> action == RetryView::Fail(MwErrorView::PageMissing(0))
            &&& status == 404 && !plain ==> action is Refused
        }),
{
    lemma_backoff_positive(c.base_backoff, attempt);
}

proof fn lemma_backoff_positive(base: int, attempt: int)
    requires
        0 <= base,
    ensures
        0 <= backoff(base, attempt),
{
    let doublings = if attempt <= 1 {
        0
    } else {
        attempt - 1
    };
    lemma_power_bound(doublings as nat);
    assert(forall|f: int| f >= 0 ==> #[trigger] (base * f) >= 0) by (nonlinear_arith)
        requires
            base >= 0,
    ;
}

/// A wiki that says how many seconds to wait is waited for as long.
pub proof fn waits_as_long_as_asked(c: ClientView, attempt: int, slept: int, seconds: u64, plain: bool)
    requires
        c.ok(),
        0 <= slept < c.retry_budget,
        seconds * SECOND <= c.retry_budget - slept,
    ensures
        retry_step(
            c,
            attempt,
            slept,
            HttpView::Answered(429, Some(decimal(seconds as nat))),
            plain,
        ) == (slept + seconds * SECOND, RetryView::Again(seconds * SECOND)),
{
    reading_undoes_writing(seconds as nat);
}

} // verus!
