//! The engine-side model of one endpoint query's outcome, and the pure
//! parts of the client: chat construction, overlay-key checking, response
//! decoding for the three protocol kinds, and the retry/backoff policy. The
//! process boundary performs the HTTP exchange and hands results back as
//! plain values.

use vstd::prelude::*;
use vstd::string::StringExecFns;
use crate::strutil::views;
use crate::json::{JsonVal, spec_get, spec_index, spec_as_str, spec_as_u64};
use crate::config::{
    EndpointContext, EndpointJson, EndpointVariants, ConfigError, json_keys, dup_when_appending,
};

verus! {

/// One normalized answer from an endpoint: the raw response text, the
/// confidence signal (bit pattern of the minimum per-token log-probability,
/// when the provider exposes one), the token cost when known, and the
/// wall-clock milliseconds the request took.
#[derive(Debug)]
pub struct ApiResponseEntry {
    pub response: String,
    pub logprob_bits: Option<u64>,
    pub total_tokens: Option<u64>,
    pub duration_ms: u64,
}

impl Clone for ApiResponseEntry {
    fn clone(&self) -> (r: Self)
        ensures
            r.response@ == self.response@,
            r.logprob_bits == self.logprob_bits,
            r.total_tokens == self.total_tokens,
            r.duration_ms == self.duration_ms,
    {
        ApiResponseEntry {
            response: self.response.clone(),
            logprob_bits: self.logprob_bits,
            total_tokens: self.total_tokens,
            duration_ms: self.duration_ms,
        }
    }
}

/// Why a request, or the decoding of its response, failed.
#[derive(Debug, Clone, Copy, PartialEq, Eq, Structural)]
pub enum ApiError {
    /// The transport timed out; never retried.
    Timeout,
    /// Connection-level failure; retried with backoff.
    Transport,
    /// The response did not have the expected shape; retried like a
    /// transport error.
    Protocol,
}

/// A query's normalized result: outer list indexed by variant, inner list
/// indexed by beam.
pub type ApiResponse = Vec<Vec<Result<ApiResponseEntry, ApiError>>>;

/// One query's payload texts, assembled by the orchestrator.
#[derive(Debug)]
pub struct ApiRequest {
    pub prompt: String,
    pub message: String,
    pub patch: String,
    pub code: String,
    pub git_diff: Option<String>,
    pub training: String,
}

/// A framing switch: the endpoint-level setting wins, then the
/// variant-level one, then off.
pub open spec fn spec_flag(e: Option<bool>, v: Option<bool>) -> bool {
    match e {
        Some(b) => b,
        None => match v {
            Some(b) => b,
            None => false,
        },
    }
}

pub open spec fn ctx_with_system(c: Option<EndpointContext>) -> Option<bool> {
    match c {
        Some(cc) => cc.with_system_message,
        None => None,
    }
}

pub open spec fn ctx_no_diff(c: Option<EndpointContext>) -> Option<bool> {
    match c {
        Some(cc) => cc.no_diff,
        None => None,
    }
}

/// The two chat turns sent to a conversational endpoint. With a system
/// message, the instructions, training example and (unless switched off)
/// the repository diff form the system turn and the delimited message the
/// user turn; without one, the instructions form the first turn and
/// everything else is folded into the second.
pub open spec fn spec_chat(
    prompt: Seq<char>,
    training: Seq<char>,
    message: Seq<char>,
    git_diff: Option<Seq<char>>,
    with_system: bool,
    no_diff: bool,
) -> (Seq<char>, Seq<char>) {
    if with_system {
        let head = prompt + "\n\n"@ + training;
        let head2 = match git_diff {
            Some(g) => if !no_diff {
                head + "\n\n"@ + g
            } else {
                head
            },
            None => head,
        };
        (head2, message)
    } else {
        let msg = match git_diff {
            Some(g) => if !no_diff {
                g + "\n\n"@ + message
            } else {
                message
            },
            None => message,
        };
        (prompt, training + "\n\n"@ + msg)
    }
}

/// Build the two chat turns for one variant of one endpoint.
pub fn create_chat(
    request: &ApiRequest,
    endpoint_context: &Option<EndpointContext>,
    variant: &EndpointVariants,
) -> (r: (String, String))
    ensures
        ({
            let sc = spec_chat(
                request.prompt@,
                request.training@,
                request.message@,
                match request.git_diff {
                    Some(g) => Some(g@),
                    None => None,
                },
                spec_flag(ctx_with_system(*endpoint_context), ctx_with_system(variant.context)),
                spec_flag(ctx_no_diff(*endpoint_context), ctx_no_diff(variant.context)),
            );
            r.0@ == sc.0 && r.1@ == sc.1
        }),
{
    let with_system = flag_of(endpoint_context, variant, true);
    let no_diff = flag_of(endpoint_context, variant, false);
    if with_system {
        let mut head = request.prompt.clone();
        head.append("\n\n");
        head.append(request.training.as_str());
        match &request.git_diff {
            Some(g) => {
                if !no_diff {
                    head.append("\n\n");
                    head.append(g.as_str());
                }
            },
            None => {},
        }
        (head, request.message.clone())
    } else {
        let mut msg = String::new();
        msg.append(request.training.as_str());
        msg.append("\n\n");
        match &request.git_diff {
            Some(g) => {
                if !no_diff {
                    msg.append(g.as_str());
                    msg.append("\n\n");
                }
            },
            None => {},
        }
        msg.append(request.message.as_str());
        proof {
            assert(msg@ =~= spec_chat(
                request.prompt@,
                request.training@,
                request.message@,
                match request.git_diff {
                    Some(g) => Some(g@),
                    None => None,
                },
                false,
                spec_flag(ctx_no_diff(*endpoint_context), ctx_no_diff(variant.context)),
            ).1);
        }
        (request.prompt.clone(), msg)
    }
}

/// Read one framing switch, endpoint level first.
fn flag_of(
    endpoint_context: &Option<EndpointContext>,
    variant: &EndpointVariants,
    with_system: bool,
) -> (r: bool)
    ensures
        with_system ==> r == spec_flag(
            ctx_with_system(*endpoint_context),
            ctx_with_system(variant.context),
        ),
        !with_system ==> r == spec_flag(
            ctx_no_diff(*endpoint_context),
            ctx_no_diff(variant.context),
        ),
{
    let e: Option<bool> = match endpoint_context {
        Some(c) => if with_system {
            c.with_system_message
        } else {
            c.no_diff
        },
        None => None,
    };
    let v: Option<bool> = match &variant.context {
        Some(c) => if with_system {
            c.with_system_message
        } else {
            c.no_diff
        },
        None => None,
    };
    match e {
        Some(b) => b,
        None => match v {
            Some(b) => b,
            None => false,
        },
    }
}

/// Merge a parameter overlay's keys into the payload's key set; a key
/// already present is a configuration error.
pub fn apply_parameters(payload_keys: &mut Vec<String>, json: &Option<EndpointJson>) -> (r: Result<
    (),
    ConfigError,
>)
    ensures
        match r {
            Ok(_) => !dup_when_appending(views(old(payload_keys)@), json_keys(*json)) && views(
                final(payload_keys)@,
            ) == views(old(payload_keys)@) + json_keys(*json),
            Err(e) => e == ConfigError::DuplicateJsonKey && dup_when_appending(
                views(old(payload_keys)@),
                json_keys(*json),
            ),
        },
{
    let empty_keys: Vec<String> = Vec::new();
    let ks: &Vec<String> = match json {
        Some(jj) => &jj.keys,
        None => &empty_keys,
    };
    proof {
        assert(views(ks@) == json_keys(*json));
    }
    if crate::config::append_keys_checked(payload_keys, ks) {
        Err(ConfigError::DuplicateJsonKey)
    } else {
        Ok(())
    }
}

// ---------------------------------------------------------------------------
// Response decoding
// ---------------------------------------------------------------------------

/// The content value of a chat-style response: the first choice's message
/// content, or its plain completion text.
pub open spec fn spec_openai_raw(v: JsonVal) -> Option<JsonVal> {
    let via_message = match spec_get(v, "choices"@) {
        Some(cs) => match spec_index(cs, 0) {
            Some(c0) => match spec_get(c0, "message"@) {
                Some(m) => spec_get(m, "content"@),
                None => None,
            },
            None => None,
        },
        None => None,
    };
    match via_message {
        Some(x) => Some(x),
        None => match spec_get(v, "choices"@) {
            Some(cs) => match spec_index(cs, 0) {
                Some(c0) => spec_get(c0, "text"@),
                None => None,
            },
            None => None,
        },
    }
}

pub open spec fn spec_openai_content(v: JsonVal) -> Option<Seq<char>> {
    match spec_openai_raw(v) {
        Some(x) => spec_as_str(x),
        None => None,
    }
}

pub open spec fn spec_openai_tokens(v: JsonVal) -> Option<u64> {
    match spec_get(v, "usage"@) {
        Some(u) => match spec_get(u, "total_tokens"@) {
            Some(t) => spec_as_u64(t),
            None => None,
        },
        None => None,
    }
}

/// Decode a chat-style response: the answer text and the token cost when
/// present. Fails exactly when the response has no text content in the
/// expected place.
pub fn extract_openai(v: &JsonVal) -> (r: Result<(String, Option<u64>), ApiError>)
    ensures
        match r {
            Ok(p) => spec_openai_content(*v) == Some(p.0@) && p.1 == spec_openai_tokens(*v),
            Err(e) => e == ApiError::Protocol && spec_openai_content(*v) is None,
        },
{
    let raw: Option<&JsonVal> = match v.get("choices") {
        Some(cs) => match cs.index(0) {
            Some(c0) => {
                let via_message: Option<&JsonVal> = match c0.get("message") {
                    Some(m) => m.get("content"),
                    None => None,
                };
                match via_message {
                    Some(x) => Some(x),
                    None => c0.get("text"),
                }
            },
            None => None,
        },
        None => None,
    };
    let content: &str = match raw {
        Some(x) => match x.as_str() {
            Some(s) => s,
            None => {
                return Err(ApiError::Protocol);
            },
        },
        None => {
            return Err(ApiError::Protocol);
        },
    };
    let tokens: Option<u64> = match v.get("usage") {
        Some(u) => match u.get("total_tokens") {
            Some(t) => t.as_u64(),
            None => None,
        },
        None => None,
    };
    Ok((content.to_owned(), tokens))
}

/// The first content block's text, when it is a text block.
pub open spec fn spec_anthropic_content(v: JsonVal) -> Option<Seq<char>> {
    match spec_get(v, "content"@) {
        Some(cs) => match spec_index(cs, 0) {
            Some(c0) => match spec_get(c0, "type"@) {
                Some(t) => if spec_as_str(t) == Some("text"@) {
                    match spec_get(c0, "text"@) {
                        Some(x) => spec_as_str(x),
                        None => None,
                    }
                } else {
                    None
                },
                None => None,
            },
            None => None,
        },
        None => None,
    }
}

/// Input plus output token counts, when the input count is present; the
/// sum saturates at the machine limit.
pub open spec fn spec_anthropic_tokens(v: JsonVal) -> Option<u64> {
    match spec_get(v, "usage"@) {
        Some(u) => match spec_get(u, "input_tokens"@) {
            Some(it) => match spec_as_u64(it) {
                Some(i) => {
                    let o = match spec_get(u, "output_tokens"@) {
                        Some(ot) => match spec_as_u64(ot) {
                            Some(x) => x,
                            None => 0,
                        },
                        None => 0,
                    };
                    if i + o <= u64::MAX {
                        Some((i + o) as u64)
                    } else {
                        Some(u64::MAX)
                    }
                },
                None => None,
            },
            None => None,
        },
        None => None,
    }
}

/// Decode a messages-style response: the first text block and the summed
/// token usage. Fails exactly when no leading text block is present.
pub fn extract_anthropic(v: &JsonVal) -> (r: Result<(String, Option<u64>), ApiError>)
    ensures
        match r {
            Ok(p) => spec_anthropic_content(*v) == Some(p.0@) && p.1 == spec_anthropic_tokens(*v),
            Err(e) => e == ApiError::Protocol && spec_anthropic_content(*v) is None,
        },
{
    let content: &str = match v.get("content") {
        Some(cs) => match cs.index(0) {
            Some(c0) => {
                let is_text = match c0.get("type") {
                    Some(t) => match t.as_str() {
                        Some(s) => crate::strutil::str_eq(s, "text"),
                        None => false,
                    },
                    None => false,
                };
                if is_text {
                    match c0.get("text") {
                        Some(x) => match x.as_str() {
                            Some(s) => s,
                            None => {
                                return Err(ApiError::Protocol);
                            },
                        },
                        None => {
                            return Err(ApiError::Protocol);
                        },
                    }
                } else {
                    return Err(ApiError::Protocol);
                }
            },
            None => {
                return Err(ApiError::Protocol);
            },
        },
        None => {
            return Err(ApiError::Protocol);
        },
    };
    let tokens: Option<u64> = match v.get("usage") {
        Some(u) => match u.get("input_tokens") {
            Some(it) => match it.as_u64() {
                Some(i) => {
                    let o: u64 = match u.get("output_tokens") {
                        Some(ot) => match ot.as_u64() {
                            Some(x) => x,
                            None => 0,
                        },
                        None => 0,
                    };
                    if i <= u64::MAX - o {
                        Some(i + o)
                    } else {
                        Some(u64::MAX)
                    }
                },
                None => None,
            },
            None => None,
        },
        None => None,
    };
    Ok((content.to_owned(), tokens))
}

/// The answer text of one ranked result row.
pub open spec fn spec_row_text(row: JsonVal) -> Option<Seq<char>> {
    match spec_index(row, 0) {
        Some(t) => spec_as_str(t),
        None => None,
    }
}

/// The confidence of one ranked result row: the bit pattern of its number,
/// when it is one.
pub open spec fn spec_row_conf(row: JsonVal) -> Option<u64> {
    match spec_index(row, 1) {
        Some(c) => match c {
            JsonVal::Num(n) => Some(n.bits),
            _ => None,
        },
        None => None,
    }
}

/// What one decoded result row must look like: a row with an answer text
/// becomes an entry whose response is the text wrapped in the protocol's
/// answer delimiters; a row without one is a protocol error.
pub open spec fn row_matches(row: JsonVal, out: Result<ApiResponseEntry, ApiError>, dur: u64) -> bool {
    match spec_row_text(row) {
        Some(t) => match out {
            Ok(e) => e.response@ == "<|patched_code|>\n"@ + t + "<|/patched_code|>"@
                && e.logprob_bits == spec_row_conf(row) && e.total_tokens is None && e.duration_ms
                == dur,
            Err(_) => false,
        },
        None => out == Err::<ApiResponseEntry, ApiError>(ApiError::Protocol),
    }
}

/// Whether the response announces the expected remote-call protocol
/// version and carries a ranked result array.
pub open spec fn spec_patchpal_shape(v: JsonVal) -> Option<Seq<JsonVal>> {
    match spec_get(v, "jsonrpc"@) {
        Some(j) => if spec_as_str(j) == Some("2.0"@) {
            match spec_get(v, "result"@) {
                Some(rows) => match rows {
                    JsonVal::Arr(items) => Some(items@),
                    _ => None,
                },
                None => None,
            }
        } else {
            None
        },
        None => None,
    }
}

/// Decode a ranked-results response: the version field must be exactly
/// `2.0` and the result array present; each row becomes one beam, wrapped
/// in the protocol's answer delimiters.
pub fn extract_patchpal(v: &JsonVal, duration_ms: u64) -> (r: Result<
    Vec<Result<ApiResponseEntry, ApiError>>,
    ApiError,
>)
    ensures
        match r {
            Ok(rows_out) => ({
                match spec_patchpal_shape(*v) {
                    Some(rows) => rows_out@.len() == rows.len() && forall|k: int|
                        0 <= k < rows.len() ==> row_matches(
                            rows[k],
                            #[trigger] rows_out@[k],
                            duration_ms,
                        ),
                    None => false,
                }
            }),
            Err(e) => e == ApiError::Protocol && spec_patchpal_shape(*v) is None,
        },
{
    let version_ok = match v.get("jsonrpc") {
        Some(j) => match j.as_str() {
            Some(s) => crate::strutil::str_eq(s, "2.0"),
            None => false,
        },
        None => false,
    };
    if !version_ok {
        return Err(ApiError::Protocol);
    }
    let rows: &Vec<JsonVal> = match v.get("result") {
        Some(rv) => match rv {
            JsonVal::Arr(items) => items,
            _ => {
                return Err(ApiError::Protocol);
            },
        },
        None => {
            return Err(ApiError::Protocol);
        },
    };
    let ghost rowsv = rows@;
    let n = rows.len();
    let mut out: Vec<Result<ApiResponseEntry, ApiError>> = Vec::new();
    let mut k: usize = 0;
    while k < n
        invariant
            k <= n,
            n == rowsv.len(),
            rowsv == rows@,
            out@.len() == k,
            forall|q: int| 0 <= q < k ==> row_matches(rowsv[q], #[trigger] out@[q], duration_ms),
        decreases n - k,
    {
        let row = &rows[k];
        let entry: Result<ApiResponseEntry, ApiError> = match row.index(0) {
            Some(t) => match t.as_str() {
                Some(text) => {
                    let mut resp: String = String::from_str("<|patched_code|>\n");
                    resp.append(text);
                    resp.append("<|/patched_code|>");
                    let conf: Option<u64> = match row.index(1) {
                        Some(c) => c.num_bits(),
                        None => None,
                    };
                    Ok(
                        ApiResponseEntry {
                            response: resp,
                            logprob_bits: conf,
                            total_tokens: None,
                            duration_ms,
                        },
                    )
                },
                None => Err(ApiError::Protocol),
            },
            None => Err(ApiError::Protocol),
        };
        out.push(entry);
        k += 1;
    }
    Ok(out)
}

/// What the retry policy asks the caller to do after a failed attempt.
#[derive(Debug, Clone, Copy, PartialEq, Eq, Structural)]
pub enum RetryDecision {
    /// A timeout is never retried: pause the post-success wait (to respect
    /// the provider's rate limit) and return the error.
    AbortOnTimeout,
    /// Sleep this many milliseconds, then attempt again.
    Backoff { sleep_ms: u64 },
    /// Attempts are exhausted: return the last error.
    GiveUp,
}

/// The retry-with-backoff policy as explicit state: attempts remaining, the
/// current backoff delay, its ceiling, and the post-success wait. One
/// instance drives one request's attempts.
#[derive(Debug, Clone, Copy, PartialEq, Eq, Structural)]
pub struct RetryState {
    pub attempts_left: u32,
    pub delay_ms: u64,
    pub max_delay_ms: u64,
    pub wait_ms: u64,
}

impl RetryState {
    pub fn new(retries: u32, delay_ms: u64, max_delay_ms: u64, wait_ms: u64) -> (r: RetryState)
        ensures
            r.attempts_left == retries,
            r.delay_ms == delay_ms,
            r.max_delay_ms == max_delay_ms,
            r.wait_ms == wait_ms,
    {
        RetryState { attempts_left: retries, delay_ms, max_delay_ms, wait_ms }
    }

    /// Whether another attempt may be made.
    pub fn can_attempt(&self) -> (r: bool)
        ensures
            r == (self.attempts_left > 0),
    {
        self.attempts_left > 0
    }

    /// Account for one attempt that ended in `error`. A timeout aborts
    /// immediately and consumes all remaining attempts; any other error
    /// consumes one attempt and, when attempts remain, asks for a sleep of
    /// the current delay and doubles it up to the ceiling.
    pub fn on_error(&mut self, error: ApiError) -> (d: RetryDecision)
        requires
            old(self).attempts_left > 0,
        ensures
            error == ApiError::Timeout ==> d == RetryDecision::AbortOnTimeout
                && final(self).attempts_left == 0
                && final(self).delay_ms == old(self).delay_ms,
            error != ApiError::Timeout && old(self).attempts_left > 1 ==> d
                == (RetryDecision::Backoff { sleep_ms: old(self).delay_ms })
                && final(self).attempts_left == old(self).attempts_left - 1
                && final(self).delay_ms == (if 2 * old(self).delay_ms <= old(self).max_delay_ms {
                2 * old(self).delay_ms
            } else {
                old(self).max_delay_ms as int
            }),
            error != ApiError::Timeout && old(self).attempts_left == 1 ==> d
                == RetryDecision::GiveUp && final(self).attempts_left == 0
                && final(self).delay_ms == old(self).delay_ms,
            final(self).max_delay_ms == old(self).max_delay_ms,
            final(self).wait_ms == old(self).wait_ms,
    {
        match error {
            ApiError::Timeout => {
                self.attempts_left = 0;
                RetryDecision::AbortOnTimeout
            },
            _ => {
                self.attempts_left = self.attempts_left - 1;
                if self.attempts_left == 0 {
                    RetryDecision::GiveUp
                } else {
                    let sleep = self.delay_ms;
                    let doubled: u64 = if self.delay_ms <= u64::MAX / 2 {
                        2 * self.delay_ms
                    } else {
                        u64::MAX
                    };
                    self.delay_ms = if doubled <= self.max_delay_ms {
                        doubled
                    } else {
                        self.max_delay_ms
                    };
                    RetryDecision::Backoff { sleep_ms: sleep }
                }
            },
        }
    }
}

} // verus!
