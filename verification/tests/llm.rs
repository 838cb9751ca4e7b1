use doccraft::answers::decode_brief;
use doccraft::citations::compact_evidence_ids;
use doccraft::context::{Density, Reserved};
use doccraft::json::{read_json, Json};
use doccraft::llm::attempts::{Exchange, Learned, Outcome};
use doccraft::llm::exchange::{
    after_attempt, content_dropped, counted_tokens, enter_window, judge_completion, judge_probe, learn,
    plan_request, probe_request, provider_quota_exhausted, reasoning_dominated, reply_body, retry_after, retryable_status,
    usage_of, within_response_limit, Attempt, Completion, CountFault, Failure, Next, PlanFault, ProbeFault,
    ProbeResult, Reason, Reply, Sent, TruncatedOutput,
};
use doccraft::llm::repair::{
    array_prefix, candidates, cut_off, decode, extract_json_object, mend_strings, repair_json_strings, JsonRepair,
    RESPONSE_TRUNCATED,
};
use doccraft::llm::request::{ask_for_json, prepared_request, render_input, stable_first};
use doccraft::llm::restore::{restore_input, RestoreFault};
use doccraft::model::LlmConfig;
use doccraft::source::hash;
use serde_json::Value;

fn json(text: &str) -> Json {
    decode(text).ok().expect("JSON")
}

fn value(json: &Json) -> Value {
    serde_json::from_str(&json.to_text()).expect("JSON")
}

fn string(text: &str) -> String {
    serde_json::to_string(text).expect("JSON string")
}

#[test]
fn a_response_that_lost_its_text_after_a_tag_is_not_accepted() {
    // The measured case: 4,323 tokens billed, 118 of them reasoning, and 3,373
    // bytes of section delivered.
    assert!(content_dropped(3_373, 4_323, Some(118)));
    // Whole sections from the same run carried about 2.9 bytes a token and are
    // kept.
    assert!(!content_dropped(10_656, 3_708, Some(0)));
    assert!(!content_dropped(9_498, 3_256, Some(157)));
    // Short answers and providers that fold reasoning into output are not judged.
    assert!(!content_dropped(40, 300, Some(0)));
    assert!(!content_dropped(2_000, 20_000, None));
}

#[test]
fn exhausted_quota_is_distinct_from_transient_rate_limits() {
    assert!(reasoning_dominated(8192, Some(7712)));
    assert!(!reasoning_dominated(8192, None));
    assert!(!reasoning_dominated(8192, Some(200)));
    assert!(!reasoning_dominated(0, Some(0)));
    assert!(provider_quota_exhausted(
        "",
        "rate limit exceeded: free-models-per-day"
    ));
    assert!(provider_quota_exhausted("insufficient_quota", ""));
    assert!(!provider_quota_exhausted(
        "429",
        "rate limit exceeded: requests per minute"
    ));
}

#[test]
fn retries_rate_limits_and_server_failures_regardless_of_body_format() {
    assert!(retryable_status(429));
    assert!(retryable_status(500));
    assert!(retryable_status(503));
    assert!(!retryable_status(400));
    assert!(!retryable_status(401));
}

#[test]
fn json_mode_never_moves_the_cache_key() {
    let c = LlmConfig {
        model: "m".into(),
        base_url: "http://x/v1".into(),
        ..Default::default()
    };
    let (request, key) = prepared_request(&c, "sys", &json(r#"{"a":1}"#), &vec![]);
    // The field is attached by the caller, after the key is taken.
    assert!(request.get("response_format").is_none(), "{}", request.to_text());
    let (_, again) = prepared_request(&c, "sys", &json(r#"{"a":1}"#), &vec![]);
    assert_eq!(key, again);
    let (other, moved) = prepared_request(&c, "sys", &json(r#"{"a":2}"#), &vec![]);
    assert_ne!(key, moved);
    assert_eq!(
        value(&ask_for_json(other))["response_format"]["type"],
        "json_object"
    );
    // The key is the hash of the endpoint, the request and the version.
    let text = format!(
        "{{\"endpoint\":\"http://x/v1\",\"request\":{},\"version\":2}}",
        request.to_text()
    );
    assert_eq!(key, hash(text.as_bytes()));
}

#[test]
fn passages_travel_as_verbatim_blocks_and_nothing_is_lost() {
    let code =
        "fn main() {\n    println!(\"a \\\\ b\");\n}\n// </passage n=\"1\" id=\"deadbeef\">\n";
    let id = hash(code.as_bytes());
    let other = hash(b"other");
    let input = json(&format!(
        r#"{{"phase":"understanding_batch","purpose":"p",
            "evidence":[{{"id":{},"path":"/work/project/src/main.rs","start":3,"end":6,"content":{},"runtime_allowed":true}}],
            "source_anchors":[{{"id":{},"path":"/work/project/src/lib.rs","previously_read":true}}],
            "instruction":"Read ALL supplied passages."}}"#,
        string(&id),
        string(code),
        string(&other)
    ));
    let roots = vec!["/work/project".to_string()];
    let content = render_input(&input, &roots);
    // Stable instructions lead, so calls of a kind share a prefix.
    assert!(
        content.starts_with(r#"{"instruction":"Read ALL supplied passages.","passages":"#),
        "{content}"
    );
    // The code is not escaped into the JSON: it follows as written.
    let (head, _) = content.split_once("\n\n").expect("blocks");
    assert!(!head.contains("println"));
    assert!(content.contains(code));
    assert!(
        content.contains(r#"path="src/main.rs" lines="3-6" runtime_allowed="true""#),
        "{content}"
    );
    // A passage has one name, the id it is cited by, and no number.
    assert!(!content.contains("<passage n="), "{content}");
    // A passage that contains something shaped like a closing tag cannot end its
    // own block: the real closing tag names the id, a hash of the text.
    let restored = value(&restore_input(&content).expect("message"));
    let short = &restored["evidence"][0]["id"];
    assert!(id.starts_with(short.as_str().expect("alias")));
    assert_eq!(restored["evidence"][0]["content"], code);
    assert_eq!(restored["evidence"][0]["path"], "src/main.rs");
    assert_eq!(restored["evidence"][0]["start"], 3);
    assert_eq!(restored["source_anchors"][0]["path"], "src/lib.rs");
    assert_eq!(restored["purpose"], "p");
    // Fewer bytes on the wire than the escaped form, once a passage is the size
    // of a real one.
    let body = "    if value == \"x\" {\n        return Err(\"bad\".into());\n    }\n".repeat(200);
    let passage = json(&format!(
        r#"{{"evidence":[{{"id":{},"path":"src/main.rs","start":1,"end":600,"content":{}}}]}}"#,
        string(&id),
        string(&body)
    ));
    let escaped = compact_evidence_ids(&passage);
    let old = format!(
        "[{{\"content\":{},\"role\":\"user\"}}]",
        string(&escaped.to_text())
    );
    let new = format!(
        "[{{\"content\":{},\"role\":\"user\"}}]",
        string(&render_input(&passage, &roots))
    );
    assert!(
        new.len() * 100 < old.len() * 95,
        "{} vs {}",
        new.len(),
        old.len()
    );
    // A request without passages is plain JSON, as before.
    let plain = render_input(&json(r#"{"b":1,"instruction":"x"}"#), &roots);
    assert_eq!(
        serde_json::from_str::<Value>(&plain).expect("JSON"),
        serde_json::from_str::<Value>(r#"{"instruction":"x","b":1}"#).expect("JSON")
    );
}

#[test]
fn a_cut_off_response_is_named_truncated_and_repaired_by_rewriting_it_shorter() {
    // The shape a real run produced twice: the body stops inside an observation
    // and the object never closes.
    let cut = "{\"findings\":[{\"topic\":\"읽기\",\"observation\":\"파일을 읽고";
    let error = decode(cut).err().expect("a cut-off body must not decode");
    assert!(error.truncated);
    assert!(error.message.contains(RESPONSE_TRUNCATED), "{}", error.message);
    assert!(
        error.message.contains("findings[0].observation"),
        "{}",
        error.message
    );
    let mut repair = JsonRepair::new();
    assert!(repair.decode(cut).is_err());
    let mut input = json("{}");
    repair.apply(&mut input);
    let shown = value(&input);
    let rewrite = shown["repair_instruction"].as_str().unwrap_or_default();
    assert!(
        rewrite.contains("cut off") && rewrite.contains("shorter"),
        "{rewrite}"
    );
    // A response that arrived whole but does not match the schema is still
    // corrected in place: only a fragment is worth writing again.
    assert!(decode_brief(r#"{"findings":{}}"#).is_none());
    repair.note(r#"{"findings":{}}"#, false);
    let mut input = json("{}");
    repair.apply(&mut input);
    let shown = value(&input);
    let fix = shown["repair_instruction"].as_str().unwrap_or_default();
    assert!(fix.contains("correct only syntax"), "{fix}");
    assert!(!fix.contains("cut off"), "{fix}");
    // A reading that arrives whole is unaffected by either path.
    let whole = json(r#"{"findings":[{"topic":"t"}]}"#);
    assert_eq!(whole.items("findings").map(Vec::len), Some(1));
}

#[test]
fn repair_carries_failed_response_without_changing_the_required_contract() {
    let mut repair = JsonRepair::new();
    assert!(repair.decode("broken json").is_err());
    let mut input = json(r#"{"instruction":"Return {findings:[]}","previous_error":"expected value"}"#);
    repair.apply(&mut input);
    let input = value(&input);
    assert_eq!(input["previous_response"], "broken json");
    assert_eq!(input["instruction"], "Return {findings:[]}");
    assert!(input["repair_instruction"]
        .as_str()
        .is_some_and(|text| text.contains("untrusted")));
}

#[test]
fn a_reading_with_a_bare_quote_or_backslash_is_repaired_not_lost() {
    // What a model wrote while quoting JavaScript and LaTeX: a bare quote pair, a
    // raw newline and a backslash that starts no JSON escape.
    let broken = "{\n  \"findings\": [\n    {\n      \"topic\": \"렌더링\",\n      \"observation\": \"calls render(\"text\") with {type: \"math\"} and \\( x \\)\nthen returns\",\n      \"kind\": \"runtime\",\n      \"evidence_ids\": [\"abcdef12\"]\n    }\n  ],\n  \"uncertainties\": [],\n  \"followup_queries\": []\n}";
    assert!(serde_json::from_str::<Value>(broken).is_err());
    let read = value(&json(broken));
    assert_eq!(
        read["findings"][0]["observation"],
        "calls render(\"text\") with {type: \"math\"} and \\( x \\)\nthen returns"
    );
    assert_eq!(read["findings"][0]["evidence_ids"][0], "abcdef12");
    // A code point escape the model did not finish: u is on the list that starts
    // a valid escape, so nothing repaired it before.
    let short = "{\"findings\":[{\"observation\":\"decode reads \\u12 and stops\"}]}";
    assert!(serde_json::from_str::<Value>(short).is_err());
    let repaired = value(&json(short));
    assert_eq!(
        repaired["findings"][0]["observation"],
        "decode reads \\u12 and stops"
    );
    // A finished one is still an escape and is left alone.
    let complete = "{\"a\":\"caf\\u00e9\"}";
    assert_eq!(repair_json_strings(complete), None);
    assert_eq!(value(&json(complete))["a"], "café");
    // Valid JSON is left exactly as it was, escapes included.
    let valid = r#"{"a":"quote \" slash \\ tab \t","b":["x", "y"],"c":{"d":"e"}}"#;
    assert_eq!(repair_json_strings(valid), None);
    assert_eq!(value(&json(valid))["a"], "quote \" slash \\ tab \t");
    // Something that is not JSON stays an error.
    assert!(decode("no json here").is_err());
}

#[test]
fn decoder_accepts_one_balanced_json_object_with_surrounding_text() {
    let read = value(&json(
        "검토 결과입니다.\n{\"message\":\"중괄호 } 와 \\\"인용\\\"\",\"ok\":true}\n완료",
    ));
    assert_eq!(read["ok"], true);
    assert_eq!(read["message"], "중괄호 } 와 \"인용\"");
    assert!(decode("JSON이 없습니다").is_err());
}

#[test]
fn decoder_names_the_place_and_the_position_of_a_fault() {
    let cut = decode(r#"{"findings":["#).err().expect("truncated");
    assert!(cut.message.contains("line 1 column"), "{}", cut.message);
    assert!(cut.truncated);
    let bad = decode("{\"a\" 1}").err().expect("malformed");
    assert!(!bad.truncated);
    assert!(
        bad.message
            .starts_with("LLM output does not match required JSON schema: "),
        "{}",
        bad.message
    );
}

#[test]
fn a_fence_around_json_is_no_part_of_it() {
    assert_eq!(candidates("```json\n{\"a\":1}\n```"), vec!["{\"a\":1}"]);
    assert_eq!(candidates("  ```\n[1]```  "), vec!["[1]"]);
    assert_eq!(
        candidates("x {\"a\":\"b\nc\"}"),
        vec![
            "x {\"a\":\"b\nc\"}".to_string(),
            "x {\"a\":\"b\\nc\"}".to_string(),
            "{\"a\":\"b\nc\"}".to_string(),
            "{\"a\":\"b\\nc\"}".to_string()
        ]
    );
}

#[test]
fn repairs_escape_control_characters_and_nothing_outside_strings() {
    assert_eq!(
        repair_json_strings("{\"a\":\"x\u{1}y\tz\r\"}"),
        Some("{\"a\":\"x\\u0001y\\tz\\r\"}".to_string())
    );
    assert_eq!(
        repair_json_strings("{\"a\":\"\u{1f}\"}"),
        Some("{\"a\":\"\\u001f\"}".to_string())
    );
    assert_eq!(repair_json_strings("{\n\t\"a\": 1\n}"), None);
    assert_eq!(
        repair_json_strings("[\"a\\"),
        Some("[\"a\\\\".to_string())
    );
    assert_eq!(
        repair_json_strings("{\"a\":\"say \"hi\"\"}"),
        Some("{\"a\":\"say \\\"hi\\\"\"}".to_string())
    );
}

#[test]
fn json_comes_back_unchanged_whatever_follows_a_string() {
    assert_eq!(repair_json_strings(r#"["a",1]"#), None);
    assert_eq!(repair_json_strings(r#"{"a":["x",true,"y",null,"z",-2]}"#), None);
    assert_eq!(repair_json_strings(r#"["a", {"b":"c"}, false]"#), None);
    // What is no JSON is mended, and prose behind a comma is no item.
    assert_eq!(
        repair_json_strings(r#"{"a":"say "hi", then go"}"#),
        Some(r#"{"a":"say \"hi\", then go"}"#.to_string())
    );
    assert_eq!(mend_strings(r#"{"a":"b"}"#), None);
    assert_eq!(mend_strings("{\"a\":\"b\n\"}"), Some("{\"a\":\"b\\n\"}".to_string()));
}

#[test]
fn a_repaired_text_needs_no_second_repair() {
    let broken = [
        "{\"a\":\"x\u{1}y\tz\r\"}",
        "[\"a\\",
        "{\"a\":\"say \"hi\"\"}",
        "{\"a\":\"decode reads \\u12 and \\u00e9 stops\"}",
        "prose \"quoted\" and {\"a\":\"b\nc\"}",
    ];
    for text in broken {
        let out = repair_json_strings(text).expect("repair");
        assert_eq!(repair_json_strings(&out), None, "{out}");
        assert_eq!(mend_strings(&out), None, "{out}");
    }
}

#[test]
fn the_bytes_of_a_reply_are_read_where_they_are_json() {
    let body = reply_body("{\"input_tokens\":12,\"말\":\"글\"}".as_bytes().to_vec()).expect("JSON");
    assert_eq!(counted_tokens(200, &body), Ok(12));
    assert_eq!(body.text("말"), Some("글"));
    assert!(reply_body(b"<html>".to_vec()).is_none());
    assert!(reply_body(b"{} {}".to_vec()).is_none());
    assert!(reply_body(vec![b'"', 0xff, b'"']).is_none());
    assert!(reply_body(vec![]).is_none());
    assert_eq!(read_json(" [1, 2] ").map(|v| v.to_text()), Some("[1,2]".to_string()));
    assert!(read_json("[1").is_none());
}

#[test]
fn strings_are_written_with_their_escapes() {
    let text = "a\"b\\c\u{8}\t\n\u{c}\r\u{1}\u{1f}\u{7f}/é한";
    assert_eq!(
        Json::Str(text.to_string()).to_text(),
        "\"a\\\"b\\\\c\\b\\t\\n\\f\\r\\u0001\\u001f\u{7f}/é한\""
    );
}

#[test]
fn the_first_balanced_object_is_found_whatever_strings_hold() {
    assert_eq!(
        extract_json_object("a {\"b\":\"}\\\"\"} c {}"),
        Some("{\"b\":\"}\\\"\"}".to_string())
    );
    assert_eq!(extract_json_object("{{}"), None);
    assert_eq!(extract_json_object("none"), None);
}

#[test]
fn finished_elements_of_a_cut_off_array_are_kept() {
    let text = "{\"findings\":[{\"a\":1},{\"b\":{\"c\":\"]\"}},{\"d\":";
    let kept: Vec<String> = array_prefix(text, "findings").iter().map(Json::to_text).collect();
    assert_eq!(kept, vec!["{\"a\":1}", "{\"b\":{\"c\":\"]\"}}"]);
    assert!(array_prefix(text, "other").is_empty());
    assert!(array_prefix("\"findings\"", "findings").is_empty());
    let odd: Vec<String> = array_prefix("{\"x\":[{oops},{\"y\":2}],\"z\":[{}]}", "x")
        .iter()
        .map(Json::to_text)
        .collect();
    assert_eq!(odd, vec!["{\"y\":2}"]);
}

#[test]
fn a_cut_off_message_names_the_place() {
    assert!(cut_off("findings[4]").starts_with(
        "RESPONSE_TRUNCATED: the response stopped inside findings[4] and its JSON object never closed"
    ));
}

#[test]
fn stable_fields_come_first_and_the_rest_keeps_its_order() {
    let input = json(r#"{"evidence":1,"instruction":"i","language":"l","purpose":"p"}"#);
    assert_eq!(
        stable_first(&input),
        r#"{"instruction":"i","language":"l","evidence":1,"purpose":"p"}"#
    );
    assert_eq!(stable_first(&json("[1,2]")), "[1,2]");
}

#[test]
fn the_payload_follows_the_reasoning_settings() {
    let mut c = LlmConfig {
        model: "m".into(),
        ..Default::default()
    };
    let ask = |c: &LlmConfig| value(&prepared_request(c, "s", &json("{}"), &vec![]).0);
    assert_eq!(ask(&c)["reasoning_effort"], "none");
    assert_eq!(ask(&c)["max_completion_tokens"], 16384);
    assert_eq!(ask(&c)["stream"], false);
    assert_eq!(ask(&c)["messages"][0]["role"], "system");
    assert_eq!(ask(&c)["messages"][1]["content"], "{}");
    c.reasoning = "on".into();
    assert_eq!(ask(&c)["reasoning_effort"], "medium");
    c.reasoning_parameter = "enable_thinking".into();
    assert_eq!(ask(&c)["chat_template_kwargs"]["enable_thinking"], true);
    c.reasoning = "default".into();
    assert!(ask(&c).get("chat_template_kwargs").is_none());
    assert!(ask(&c).get("reasoning_effort").is_none());
}

fn attempt(number: u32, last: u32, asked_json: bool) -> Attempt {
    Attempt {
        number,
        last,
        retry_after: 7,
        jitter: 9,
        asked_json,
    }
}

#[test]
fn an_exchange_is_repeated_fails_or_settles() {
    let body = |status: u16, text: &str| Reply::Body(status, json(text));
    assert_eq!(
        after_attempt(&attempt(2, 3, true), &Reply::Unreachable),
        Next::Again(4009, Reason::Connection)
    );
    assert_eq!(
        after_attempt(&attempt(3, 3, true), &Reply::Unreachable),
        Next::Fail(Failure::Unreachable)
    );
    assert_eq!(
        after_attempt(&attempt(0, 3, true), &Reply::BodyLost),
        Next::Again(1000, Reason::BodyConnection)
    );
    assert_eq!(
        after_attempt(&attempt(3, 3, true), &Reply::BodyLost),
        Next::Fail(Failure::BodyLost)
    );
    assert_eq!(
        after_attempt(&attempt(1, 3, true), &Reply::NotJson(502)),
        Next::Again(7000, Reason::InvalidErrorResponse)
    );
    assert_eq!(
        after_attempt(&attempt(3, 3, true), &Reply::NotJson(429)),
        Next::Fail(Failure::InvalidErrorResponse(429))
    );
    assert_eq!(
        after_attempt(&attempt(1, 3, true), &Reply::NotJson(403)),
        Next::Fail(Failure::Rejected(403))
    );
    assert_eq!(
        after_attempt(&attempt(1, 3, true), &Reply::NotJson(200)),
        Next::Fail(Failure::NotJson)
    );
    assert_eq!(
        after_attempt(&attempt(1, 3, true), &body(200, r#"{"choices":[]}"#)),
        Next::Settle
    );
    assert_eq!(
        after_attempt(&attempt(1, 3, true), &body(200, r#"{"error":{"message":"Daily Quota"}}"#)),
        Next::Fail(Failure::Quota)
    );
    assert_eq!(
        after_attempt(&attempt(1, 3, true), &body(200, r#"{"error":null}"#)),
        Next::Again(2000, Reason::ProviderError)
    );
    assert_eq!(
        after_attempt(&attempt(3, 3, true), &body(200, r#"{"error":null}"#)),
        Next::Fail(Failure::ProviderError)
    );
    assert_eq!(
        after_attempt(&attempt(0, 3, true), &body(429, r#"{"error":{"code":"insufficient_quota"}}"#)),
        Next::Fail(Failure::QuotaOfAccount)
    );
    assert_eq!(
        after_attempt(&attempt(0, 3, true), &body(400, r#"{"error":{"message":"Maximum Context is 8k"}}"#)),
        Next::Fail(Failure::TooLarge)
    );
    assert_eq!(
        after_attempt(&attempt(3, 3, true), &body(503, "{}")),
        Next::Fail(Failure::Status(503))
    );
    assert_eq!(
        after_attempt(&attempt(4, 5, true), &body(503, "{}")),
        Next::Again(16000, Reason::Status)
    );
    assert_eq!(
        after_attempt(&attempt(0, 3, true), &body(400, "{}")),
        Next::AgainWithoutJson
    );
    assert_eq!(
        after_attempt(&attempt(3, 3, true), &body(400, "{}")),
        Next::Fail(Failure::JsonModeRejected(400))
    );
    assert_eq!(
        after_attempt(&attempt(0, 3, false), &body(400, "{}")),
        Next::Fail(Failure::Rejected(400))
    );
}

#[test]
fn failures_are_reported_by_name() {
    assert_eq!(
        Failure::Status(503).message(),
        "API_RETRIES_EXHAUSTED: HTTP 503"
    );
    assert_eq!(
        Failure::InvalidErrorResponse(502).message(),
        "API_RETRIES_EXHAUSTED: HTTP 502 returned invalid JSON"
    );
    assert_eq!(
        Failure::TooLarge.message(),
        "CONTEXT_BUDGET: server requires smaller input"
    );
    assert!(Failure::QuotaOfAccount.message().starts_with("PROVIDER_BUDGET: "));
    assert_eq!(
        TruncatedOutput { content: "x".into() }.message(),
        "OUTPUT_TRUNCATED: response reached its output token limit"
    );
}

#[test]
fn a_completion_is_worth_what_it_says() {
    let usage = |text: &str| usage_of(&json(text), 100, 50);
    let reported = usage(
        r#"{"usage":{"prompt_tokens":7,"completion_tokens":8,"completion_tokens_details":{"reasoning_tokens":3}}}"#,
    );
    assert_eq!((reported.input, reported.output), (7, 8));
    assert_eq!(reported.reasoning, Some(3));
    let silent = usage("{}");
    assert_eq!((silent.input, silent.output), (100, 50));
    assert!(!silent.input_reported && !silent.output_reported);
    let judge = |text: &str| judge_completion(&json(text), &silent, 50);
    assert!(matches!(
        judge_completion(&json("{}"), &silent, 49),
        Completion::OverLimit
    ));
    assert!(matches!(
        judge(r#"{"choices":[{"finish_reason":"length","message":{"content":"part"}}]}"#),
        Completion::Truncated(t) if t == "part"
    ));
    assert!(matches!(judge(r#"{"choices":[]}"#), Completion::Unfinished));
    assert!(matches!(
        judge(r#"{"choices":[{"finish_reason":"stop"}]}"#),
        Completion::NoText
    ));
    assert!(matches!(
        judge(r#"{"choices":[{"finish_reason":"stop","message":{"content":" "}}]}"#),
        Completion::Blank
    ));
    let whole = judge(r#"{"choices":[{"finish_reason":"stop","message":{"content":"text"}}]}"#);
    assert!(whole.fault().is_none());
    assert!(matches!(whole, Completion::Text(t) if t == "text"));
    let billed = usage_of(
        &json(
            r#"{"usage":{"completion_tokens":4323,"completion_tokens_details":{"reasoning_tokens":118}}}"#,
        ),
        1,
        9000,
    );
    let dropped = judge_completion(
        &json(r#"{"choices":[{"finish_reason":"stop","message":{"content":"short"}}]}"#),
        &billed,
        9000,
    );
    assert!(matches!(&dropped, Completion::Dropped(4205, text) if text == "short"));
    assert!(dropped
        .fault()
        .is_some_and(|t| t.starts_with("PROVIDER_CONTENT_DROPPED: the provider billed 4205 visible output tokens but delivered only 5 bytes")));
}

#[test]
fn an_underestimate_widens_margins_unless_calibration_learnt_from_it() {
    let mut fresh = doccraft::context::Density { samples: 0, floor: 0 };
    let usage = usage_of(&json(r#"{"usage":{"prompt_tokens":3000}}"#), 2000, 10);
    assert!(learn(&mut fresh, &usage, 6000, 2000, false));
    assert_eq!(fresh.samples, 1);
    let mut calibrated = doccraft::context::Density { samples: 5, floor: 300 };
    assert!(!learn(&mut calibrated, &usage, 6000, 2000, false));
    assert_eq!(calibrated.floor, 200);
    let mut counted = doccraft::context::Density { samples: 5, floor: 300 };
    assert!(learn(&mut counted, &usage, 6000, 2000, true));
    assert_eq!(counted.floor, 300);
}

#[test]
fn a_window_admits_requests_and_tokens_up_to_its_limits() {
    let mut window: Vec<Sent> = vec![];
    assert_eq!(enter_window(&mut window, 1_000, 60, 2, 100), None);
    assert_eq!(enter_window(&mut window, 2_000, 41, 2, 100), Some(59_000));
    assert_eq!(enter_window(&mut window, 2_000, 40, 2, 100), None);
    assert_eq!(enter_window(&mut window, 3_000, 0, 2, 100), Some(58_000));
    // The oldest request leaves after a minute.
    assert_eq!(enter_window(&mut window, 61_000, 60, 2, 100), None);
    assert_eq!(window.len(), 2);
    let mut empty: Vec<Sent> = vec![];
    assert_eq!(enter_window(&mut empty, 0, 101, 2, 100), Some(1000));
}

#[test]
fn a_plan_reserves_input_and_output_within_a_minute() {
    let c = LlmConfig {
        tpm: 20_000,
        ..Default::default()
    };
    let (b, reservation) = plan_request(&c, &json("{}"), 100, 0, Some(100)).ok().expect("plan");
    assert_eq!((b.input, b.output, reservation), (100, 16384, 16484));
    assert_eq!((b.margin, b.context), (40_000, 200_000));
    assert_eq!(b.method, c.token_mode);
    assert_eq!(
        plan_request(&c, &json("{}"), 100, 0, Some(10_000)).err(),
        Some(PlanFault::Rate)
    );
    assert!(matches!(
        plan_request(&c, &json("{}"), 100, 0, Some(199_000)).err(),
        Some(PlanFault::Context(_))
    ));
}

#[test]
fn counts_headers_and_sizes_are_read_strictly() {
    assert_eq!(counted_tokens(200, &json(r#"{"input_tokens":12}"#)), Ok(12));
    assert_eq!(
        counted_tokens(500, &json(r#"{"input_tokens":12}"#)),
        Err(CountFault::Failed)
    );
    assert_eq!(
        counted_tokens(200, &json(r#"{"input_tokens":-1}"#)),
        Err(CountFault::NoCount)
    );
    assert_eq!(retry_after(Some("5")), 5);
    assert_eq!(retry_after(Some("+5")), 5);
    assert_eq!(retry_after(Some("500")), 60);
    assert_eq!(retry_after(Some("soon")), 0);
    assert_eq!(retry_after(None), 0);
    assert!(within_response_limit(4 * 1024 * 1024, 0));
    assert!(!within_response_limit(4 * 1024 * 1024, 1));
}

#[test]
fn a_probe_needs_a_model_and_a_completion() {
    let none = LlmConfig::default();
    assert!(matches!(probe_request(&none), Err(ProbeFault::ModelRequired)));
    let c = LlmConfig {
        model: "m".into(),
        ..Default::default()
    };
    let request = value(&probe_request(&c).ok().expect("probe"));
    assert_eq!(request["max_completion_tokens"], 256);
    assert_eq!(request["messages"][0]["content"], "Reply with OK only.");
    let tiny = LlmConfig {
        model: "m".into(),
        context_limit: 100,
        ..Default::default()
    };
    assert!(matches!(probe_request(&tiny), Err(ProbeFault::Budget(_))));
    assert!(matches!(
        judge_probe(200, &json(r#"{"choices":[{"message":{}}]}"#)),
        ProbeResult::Answers
    ));
    assert!(matches!(judge_probe(401, &json("{}")), ProbeResult::Rejected(401)));
    assert!(matches!(
        judge_probe(200, &json(r#"{"error":{"code":"x"}}"#)),
        ProbeResult::NoCompletion(c) if c == "\"x\""
    ));
}

#[test]
fn what_a_message_carried_is_read_back() {
    let text = |rest: &str| format!("{{\"a\":{{\"passage\":\"ab\"}},\"b\":[1]}}\n\n{rest}");
    let good = "<passage id=\"ab\" path=\"x &amp; &quot;y&quot;\" lines=\"3-6\" runtime_allowed=\"true\">\nline\n</passage id=\"cd\">\n\n</passage id=\"ab\">";
    assert_eq!(
        restore_input(&text(good)).expect("message").to_text(),
        r#"{"a":{"content":"line\n</passage id=\"cd\">\n","end":6,"id":"ab","path":"x & \"y\"","runtime_allowed":true,"start":3},"b":[1]}"#
    );
    // A passage that was not sent stays what stands for it.
    assert_eq!(
        restore_input(&text("")).expect("message").to_text(),
        r#"{"a":{"passage":"ab"},"b":[1]}"#
    );
    assert_eq!(restore_input("no JSON").err(), Some(RestoreFault::Json));
    assert_eq!(
        restore_input(&text("<passage id=\"ab\"")).err(),
        Some(RestoreFault::Header)
    );
    assert_eq!(
        restore_input(&text("<passage id=\"ab>\n")).err(),
        Some(RestoreFault::Id)
    );
    assert_eq!(
        restore_input(&text("<passage id=\"ab\">\ntext")).err(),
        Some(RestoreFault::Close)
    );
}

fn fresh() -> Learned {
    Learned {
        density: Density { samples: 0, floor: 0 },
        extra_margin: 0,
        json_off: false,
        reserved: Reserved { tokens: 0, cost: 0 },
    }
}

#[test]
fn an_exchange_learns_from_every_reply() {
    let c = LlmConfig {
        model: "m".into(),
        retries: 2,
        ..Default::default()
    };
    let (request, _) = prepared_request(&c, "sys", &json(r#"{"a":1}"#), &vec![]);
    let mut learned = fresh();
    let mut e = Exchange::open(&c, request.copy(), true, &learned, None).ok().expect("fits");
    assert!(e.request.get("response_format").is_some());
    assert_eq!((e.attempt, e.last), (0, 2));
    assert_eq!(e.reservation, e.budget.input + e.budget.output);
    learned.reserved.tokens = e.reservation;
    // A server that fails is asked again, after the time that it asks for.
    let busy = Reply::Body(503, json("{}"));
    assert!(matches!(
        e.replied(&mut learned, &busy, 7, 0),
        Outcome::Again(7000, Reason::Status)
    ));
    assert_eq!(e.attempt, 1);
    // One that cannot answer in JSON is asked once more without it.
    let refused = Reply::Body(400, json("{}"));
    assert!(matches!(
        e.replied(&mut learned, &refused, 0, 0),
        Outcome::AgainWithoutJson
    ));
    assert!(learned.json_off);
    assert!(e.request.get("response_format").is_none());
    assert_eq!(e.request.to_text(), request.to_text());
    // A completion releases what it did not use.
    let done = Reply::Body(
        200,
        json(
            r#"{"choices":[{"finish_reason":"stop","message":{"content":"fine"}}],"usage":{"prompt_tokens":10,"completion_tokens":2}}"#,
        ),
    );
    let reservation = e.reservation;
    match e.replied(&mut learned, &done, 0, 0) {
        Outcome::Finished(Completion::Text(text), usage, released) => {
            assert_eq!(text, "fine");
            assert_eq!((usage.input, usage.output), (10, 2));
            assert_eq!(released, reservation - 12);
        }
        _ => panic!("a completion"),
    }
    assert_eq!(learned.reserved.tokens, 12);
    // The next exchange does not ask for JSON.
    let next = Exchange::open(&c, request.copy(), true, &learned, None).ok().expect("fits");
    assert!(next.request.get("response_format").is_none());
    // The last attempt fails, and a request that is too large widens margins.
    assert!(matches!(
        e.replied(&mut learned, &busy, 0, 0),
        Outcome::Failed(Failure::Status(503))
    ));
    let large = Reply::Body(400, json(r#"{"error":{"code":"context_length_exceeded"}}"#));
    assert!(matches!(
        e.replied(&mut learned, &large, 0, 0),
        Outcome::Failed(Failure::TooLarge)
    ));
    assert_eq!(learned.extra_margin, 10);
    assert_eq!(learned.density.samples, u32::MAX);
    // A request that exceeds the tokens of a minute is not sent.
    let slow = LlmConfig { tpm: 1, ..c };
    assert!(matches!(
        Exchange::open(&slow, request, true, &learned, None),
        Err(PlanFault::Rate)
    ));
}
