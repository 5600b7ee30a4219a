//! Checks of the wire-protocol pieces: prompt and chat construction,
//! response decoding, the retry policy and configuration validation.

use synthmerge::api_client::{
    apply_parameters, create_chat, extract_anthropic, extract_openai, extract_patchpal, ApiError,
    ApiRequest, RetryDecision, RetryState,
};
use synthmerge::config::{
    Config, ConfigError, EndpointConfig, EndpointContext, EndpointJson, EndpointTypeConfig,
    EndpointVariants,
};
use synthmerge::conflict_resolver::{ConflictResolver, ResponseError};
use synthmerge::git_utils::ContextLines;
use synthmerge::json::{JsonNum, JsonVal};
use synthmerge::strutil::{parse_usize, str_trim, usize_to_string};

fn ctx() -> ContextLines {
    ContextLines { code_context_lines: 3, diff_context_lines: 3, patch_context_lines: 3 }
}

fn mk_ep(name: &str, config: EndpointTypeConfig) -> EndpointConfig {
    EndpointConfig {
        name: name.to_string(),
        url: "http://localhost".to_string(),
        timeout: 600,
        retries: 3,
        delay: 10,
        max_delay: 30,
        wait: 0,
        root_certificate_pem: None,
        api_key_file: None,
        context: None,
        json: None,
        config,
    }
}

// Scenario: a timeout on the first attempt is never retried.
#[test]
fn timeout_is_not_retried() {
    let mut st = RetryState::new(3, 10, 30, 0);
    let mut attempts = 0u32;
    // simulate the driving loop: one attempt, then a timeout
    assert!(st.can_attempt());
    attempts += 1;
    let d = st.on_error(ApiError::Timeout);
    assert_eq!(d, RetryDecision::AbortOnTimeout);
    assert!(!st.can_attempt());
    assert_eq!(attempts, 1);
}

// Scenario: transport errors with retries=3, delay=10ms, max_delay=30ms
// back off 10ms then 20ms and then fail, never exceeding the ceiling.
#[test]
fn backoff_sequence_is_capped() {
    let mut st = RetryState::new(3, 10, 30, 0);
    let mut sleeps: Vec<u64> = Vec::new();
    loop {
        assert!(st.can_attempt());
        match st.on_error(ApiError::Transport) {
            RetryDecision::Backoff { sleep_ms } => sleeps.push(sleep_ms),
            RetryDecision::GiveUp => break,
            RetryDecision::AbortOnTimeout => unreachable!(),
        }
    }
    assert_eq!(sleeps, vec![10, 20]);
    assert!(sleeps.iter().all(|&s| s <= 30));
    assert!(!st.can_attempt());
}

#[test]
fn backoff_doubles_up_to_ceiling() {
    let mut st = RetryState::new(5, 10, 30, 0);
    assert_eq!(st.on_error(ApiError::Protocol), RetryDecision::Backoff { sleep_ms: 10 });
    assert_eq!(st.on_error(ApiError::Protocol), RetryDecision::Backoff { sleep_ms: 20 });
    assert_eq!(st.on_error(ApiError::Protocol), RetryDecision::Backoff { sleep_ms: 30 });
    assert_eq!(st.on_error(ApiError::Protocol), RetryDecision::Backoff { sleep_ms: 30 });
}

fn obj(entries: Vec<(&str, JsonVal)>) -> JsonVal {
    JsonVal::Obj(entries.into_iter().map(|(k, v)| (k.to_string(), v)).collect())
}

fn s(x: &str) -> JsonVal {
    JsonVal::Str(x.to_string())
}

fn num(uint: Option<u64>, bits: u64) -> JsonVal {
    JsonVal::Num(JsonNum { uint, bits })
}

#[test]
fn openai_chat_response_is_decoded() {
    let v = obj(vec![
        (
            "choices",
            JsonVal::Arr(vec![obj(vec![("message", obj(vec![("content", s("the answer"))]))])]),
        ),
        ("usage", obj(vec![("total_tokens", num(Some(42), 0))])),
    ]);
    let (content, tokens) = extract_openai(&v).unwrap();
    assert_eq!(content, "the answer");
    assert_eq!(tokens, Some(42));
}

#[test]
fn openai_completion_response_is_decoded() {
    let v = obj(vec![("choices", JsonVal::Arr(vec![obj(vec![("text", s("plain"))])]))]);
    let (content, tokens) = extract_openai(&v).unwrap();
    assert_eq!(content, "plain");
    assert_eq!(tokens, None);
}

#[test]
fn openai_response_without_content_is_an_error() {
    let v = obj(vec![("choices", JsonVal::Arr(vec![obj(vec![])]))]);
    assert_eq!(extract_openai(&v).unwrap_err(), ApiError::Protocol);
    assert_eq!(extract_openai(&JsonVal::Null).unwrap_err(), ApiError::Protocol);
}

#[test]
fn anthropic_response_is_decoded() {
    let v = obj(vec![
        (
            "content",
            JsonVal::Arr(vec![obj(vec![("type", s("text")), ("text", s("reply"))])]),
        ),
        (
            "usage",
            obj(vec![
                ("input_tokens", num(Some(10), 0)),
                ("output_tokens", num(Some(32), 0)),
            ]),
        ),
    ]);
    let (content, tokens) = extract_anthropic(&v).unwrap();
    assert_eq!(content, "reply");
    assert_eq!(tokens, Some(42));
}

#[test]
fn anthropic_non_text_block_is_an_error() {
    let v = obj(vec![("content", JsonVal::Arr(vec![obj(vec![("type", s("image"))])]))]);
    assert_eq!(extract_anthropic(&v).unwrap_err(), ApiError::Protocol);
}

#[test]
fn patchpal_rows_become_wrapped_beams() {
    let v = obj(vec![
        ("jsonrpc", s("2.0")),
        (
            "result",
            JsonVal::Arr(vec![
                JsonVal::Arr(vec![s("fix one\n"), num(None, 123)]),
                JsonVal::Arr(vec![s("fix two\n"), num(None, 456)]),
            ]),
        ),
    ]);
    let rows = extract_patchpal(&v, 77).unwrap();
    assert_eq!(rows.len(), 2);
    let first = rows[0].as_ref().unwrap();
    assert_eq!(first.response, "<|patched_code|>\nfix one\n<|/patched_code|>");
    assert_eq!(first.logprob_bits, Some(123));
    assert_eq!(first.duration_ms, 77);
    assert_eq!(first.total_tokens, None);
}

#[test]
fn patchpal_wrong_version_is_an_error() {
    let v = obj(vec![("jsonrpc", s("1.0")), ("result", JsonVal::Arr(vec![]))]);
    assert_eq!(extract_patchpal(&v, 0).unwrap_err(), ApiError::Protocol);
}

#[test]
fn patchpal_row_without_text_is_a_row_error() {
    let v = obj(vec![
        ("jsonrpc", s("2.0")),
        ("result", JsonVal::Arr(vec![JsonVal::Arr(vec![num(Some(1), 1)])])),
    ]);
    let rows = extract_patchpal(&v, 0).unwrap();
    assert_eq!(rows.len(), 1);
    assert_eq!(rows[0].as_ref().unwrap_err(), &ApiError::Protocol);
}

fn mk_request() -> ApiRequest {
    ApiRequest {
        prompt: "PROMPT".to_string(),
        message: "MESSAGE".to_string(),
        patch: "PATCH".to_string(),
        code: "CODE".to_string(),
        git_diff: None,
        training: "TRAINING".to_string(),
    }
}

#[test]
fn chat_without_system_message() {
    let variant = EndpointVariants { name: None, context: None, json: None };
    let (a, b) = create_chat(&mk_request(), &None, &variant);
    assert_eq!(a, "PROMPT");
    assert_eq!(b, "TRAINING\n\nMESSAGE");
}

#[test]
fn chat_with_system_message_and_diff() {
    let variant = EndpointVariants { name: None, context: None, json: None };
    let ec = Some(EndpointContext { with_system_message: Some(true), no_diff: None });
    let mut req = mk_request();
    req.git_diff = Some("DIFF".to_string());
    let (a, b) = create_chat(&req, &ec, &variant);
    assert_eq!(a, "PROMPT\n\nTRAINING\n\nDIFF");
    assert_eq!(b, "MESSAGE");
}

#[test]
fn chat_diff_can_be_switched_off() {
    let variant = EndpointVariants {
        name: None,
        context: Some(EndpointContext { with_system_message: None, no_diff: Some(true) }),
        json: None,
    };
    let mut req = mk_request();
    req.git_diff = Some("DIFF".to_string());
    let (a, b) = create_chat(&req, &None, &variant);
    assert_eq!(a, "PROMPT");
    assert_eq!(b, "TRAINING\n\nMESSAGE");
}

#[test]
fn overlay_keys_must_not_collide() {
    let mut payload_keys = vec!["messages".to_string()];
    let overlay = Some(EndpointJson { keys: vec!["temperature".to_string()] });
    assert!(apply_parameters(&mut payload_keys, &overlay).is_ok());
    assert_eq!(payload_keys, vec!["messages".to_string(), "temperature".to_string()]);
    let clash = Some(EndpointJson { keys: vec!["messages".to_string()] });
    assert_eq!(
        apply_parameters(&mut payload_keys, &clash).unwrap_err(),
        ConfigError::DuplicateJsonKey
    );
}

#[test]
fn prompt_names_context_line_counts() {
    let resolver = ConflictResolver::new(ctx(), None, false);
    let conflict = synthmerge::conflict_resolver::Conflict {
        file_path: "f".to_string(),
        local: String::new(),
        base: String::new(),
        remote: String::new(),
        head_context: String::new(),
        tail_context: String::new(),
        start_line: 1,
        remote_start: 4,
        nr_head_context_lines: 1,
        nr_tail_context_lines: 2,
        marker_size: 7,
    };
    let p = resolver.create_prompt(&conflict);
    assert!(p.contains("Rewrite the 1 line after <|code|> and the 2 lines before <|/code|>"));
    assert!(p.starts_with("Apply the PATCH between <|patch|><|/patch|>"));
}

#[test]
fn message_embeds_patch_and_code() {
    let resolver = ConflictResolver::new(ctx(), None, false);
    let m = resolver.create_message(&"P\n".to_string(), &"C\n".to_string());
    assert_eq!(m, "<|patch|>\nP\n<|/patch|>\n\n<|code|>\nC\n<|/code|>");
}

#[test]
fn parse_response_finds_every_block() {
    let resolver = ConflictResolver::new(ctx(), None, false);
    let resp = "x<|patched_code|>\nA\n<|/patched_code|>y<|patched_code|>\nB\n<|/patched_code|>z"
        .to_string();
    let blocks = resolver.parse_response(&resp).unwrap();
    assert_eq!(blocks, vec!["A\n".to_string(), "B\n".to_string()]);
    let none = "nothing here".to_string();
    assert_eq!(resolver.parse_response(&none).unwrap_err(), ResponseError::NoCodeBlocks);
    let dangling = "<|patched_code|>\nunclosed".to_string();
    assert_eq!(
        resolver.parse_response(&dangling).unwrap_err(),
        ResponseError::MissingEndDelimiter
    );
}

#[test]
fn model_names_carry_variant_beam_and_answer() {
    let variants = vec![EndpointVariants {
        name: Some("fast".to_string()),
        context: None,
        json: None,
    }];
    let eps = vec![
        mk_ep("X", EndpointTypeConfig::OpenAI { variants: Some(variants), no_chat: false }),
        mk_ep("Y", EndpointTypeConfig::Patchpal),
    ];
    let resolver = ConflictResolver::new(ctx(), None, false);
    assert_eq!(resolver.get_model_name_multi(&eps, 0, 0, 0, 0), "X (fast)");
    assert_eq!(resolver.get_model_name_multi(&eps, 0, 0, 1, 2), "X (fast#1$2)");
    assert_eq!(resolver.get_model_name_multi(&eps, 1, 0, 0, 0), "Y");
    assert_eq!(resolver.get_model_name_multi(&eps, 1, 0, 2, 0), "Y (#2)");
}

#[test]
fn config_validation_accepts_good_endpoints() {
    let eps = vec![
        mk_ep("A", EndpointTypeConfig::OpenAI { variants: None, no_chat: false }),
        mk_ep("B", EndpointTypeConfig::Patchpal),
    ];
    let config = Config::validate(eps).unwrap();
    assert_eq!(config.get_all_endpoints().len(), 2);
}

#[test]
fn config_validation_rejects_bad_endpoints() {
    assert_eq!(Config::validate(vec![]).unwrap_err(), ConfigError::EmptyEndpoints);
    assert_eq!(
        Config::validate(vec![mk_ep("", EndpointTypeConfig::Patchpal)]).unwrap_err(),
        ConfigError::EmptyName
    );
    assert_eq!(
        Config::validate(vec![mk_ep("A(b)", EndpointTypeConfig::Patchpal)]).unwrap_err(),
        ConfigError::InvalidName
    );
    let mut no_url = mk_ep("A", EndpointTypeConfig::Patchpal);
    no_url.url = String::new();
    assert_eq!(Config::validate(vec![no_url]).unwrap_err(), ConfigError::EmptyUrl);
    assert_eq!(
        Config::validate(vec![
            mk_ep("A", EndpointTypeConfig::Patchpal),
            mk_ep("A", EndpointTypeConfig::Patchpal),
        ])
        .unwrap_err(),
        ConfigError::DuplicateName
    );
}

#[test]
fn config_validation_checks_variants() {
    let variants = |names: Vec<Option<&str>>| {
        names
            .into_iter()
            .map(|n| EndpointVariants {
                name: n.map(|x| x.to_string()),
                context: None,
                json: None,
            })
            .collect::<Vec<_>>()
    };
    let dup = mk_ep(
        "A",
        EndpointTypeConfig::OpenAI {
            variants: Some(variants(vec![Some("v"), Some("v")])),
            no_chat: false,
        },
    );
    assert_eq!(Config::validate(vec![dup]).unwrap_err(), ConfigError::DuplicateVariantName);
    let bad = mk_ep(
        "A",
        EndpointTypeConfig::OpenAI {
            variants: Some(variants(vec![Some("v|w")])),
            no_chat: false,
        },
    );
    assert_eq!(Config::validate(vec![bad]).unwrap_err(), ConfigError::InvalidVariantName);
    let mut clash = mk_ep(
        "A",
        EndpointTypeConfig::OpenAI {
            variants: Some(vec![EndpointVariants {
                name: Some("v".to_string()),
                context: None,
                json: Some(EndpointJson { keys: vec!["temperature".to_string()] }),
            }]),
            no_chat: false,
        },
    );
    clash.json = Some(EndpointJson { keys: vec!["temperature".to_string()] });
    assert_eq!(Config::validate(vec![clash]).unwrap_err(), ConfigError::DuplicateJsonKey);
    let mut conflicted = mk_ep(
        "A",
        EndpointTypeConfig::Anthropic {
            variants: Some(vec![EndpointVariants {
                name: Some("v".to_string()),
                context: Some(EndpointContext { with_system_message: Some(true), no_diff: None }),
                json: None,
            }]),
        },
    );
    conflicted.context = Some(EndpointContext { with_system_message: Some(false), no_diff: None });
    assert_eq!(
        Config::validate(vec![conflicted]).unwrap_err(),
        ConfigError::ConflictingContextField
    );
}

#[test]
fn string_utilities() {
    assert_eq!(usize_to_string(0), "0");
    assert_eq!(usize_to_string(1234), "1234");
    assert_eq!(parse_usize("12"), Some(12));
    assert_eq!(parse_usize(""), None);
    assert_eq!(parse_usize("1a"), None);
    assert_eq!(str_trim("  spaced \n"), "spaced");
    assert_eq!(str_trim("\t\n "), "");
    assert_eq!(str_trim("solid"), "solid");
}

// The diff of two texts is a correct edit script: applying it to the base
// reproduces the remote text.
#[test]
fn diff_round_trip_reproduces_remote() {
    let base = "a\nb\nc\nd\ne\nf\ng\nh\n";
    let remote = "a\nb\nc\nX\nY\ne\nf\ng\nh\n";
    let diff = ConflictResolver::create_diff(base, remote, 3);
    assert!(!diff.is_empty());
    assert_eq!(apply_unified(base, &diff), remote);
    // equal inputs produce an empty diff
    assert!(ConflictResolver::create_diff(base, base, 3).is_empty());
}

#[test]
fn diff_round_trip_multiple_hunks() {
    let base = "1\n2\n3\n4\n5\n6\n7\n8\n9\n10\n11\n12\n13\n14\n15\n16\n";
    let remote = "1\nTWO\n3\n4\n5\n6\n7\n8\n9\n10\n11\n12\n13\n14\nFIFTEEN\n16\n";
    let diff = ConflictResolver::create_diff(base, remote, 1);
    assert_eq!(apply_unified(base, &diff), remote);
}

/// A small unified-diff interpreter used to check the round trip: replays
/// hunks against the base text.
fn apply_unified(base: &str, diff: &str) -> String {
    let base_lines: Vec<&str> = base.split_inclusive('\n').collect();
    let mut out = String::new();
    let mut pos = 0usize;
    for line in diff.split_inclusive('\n') {
        if line.starts_with("@@ -") {
            let rest = &line[4..];
            let a: usize = rest
                .split(|c: char| c == ',' || c == ' ')
                .next()
                .unwrap()
                .parse()
                .unwrap();
            let start = a.saturating_sub(1);
            while pos < start {
                out.push_str(base_lines[pos]);
                pos += 1;
            }
        } else if let Some(rest) = line.strip_prefix('-') {
            assert_eq!(rest, base_lines[pos]);
            pos += 1;
        } else if let Some(rest) = line.strip_prefix('+') {
            out.push_str(rest);
        } else if let Some(rest) = line.strip_prefix(' ') {
            assert_eq!(rest, base_lines[pos]);
            out.push_str(rest);
            pos += 1;
        }
    }
    while pos < base_lines.len() {
        out.push_str(base_lines[pos]);
        pos += 1;
    }
    out
}

#[test]
fn parse_usize_rejects_overflow() {
    assert_eq!(parse_usize("99999999999999999999999999"), None);
    assert_eq!(parse_usize(&usize::MAX.to_string()), Some(usize::MAX));
}

#[test]
fn patchpal_integer_confidence_is_carried() {
    let v = obj(vec![
        ("jsonrpc", s("2.0")),
        ("result", JsonVal::Arr(vec![JsonVal::Arr(vec![s("x\n"), num(Some(3), 99)])])),
    ]);
    let rows = extract_patchpal(&v, 1).unwrap();
    assert_eq!(rows[0].as_ref().unwrap().logprob_bits, Some(99));
}
