use laya::json::J;
use laya::server::{
    allowed, api_key, busy, check, dispatch, error_body, expand, failure, json_content, precheck, prepare, presets_listing,
    root_body, route_refusal, secret_equal, too_many_questions, Step,
};

fn show(j: &J) -> String {
    match j {
        J::Null => "null".to_string(),
        J::Bool(b) => b.to_string(),
        J::Num(n) => format!("#{:x}", n),
        J::Str(s) => format!("{:?}", s),
        J::Arr(v) => format!("[{}]", v.iter().map(show).collect::<Vec<_>>().join(",")),
        J::Obj(v) => format!(
            "{{{}}}",
            v.iter().map(|(k, x)| format!("{:?}:{}", k, show(x))).collect::<Vec<_>>().join(",")
        ),
    }
}

fn obj(p: Vec<(&str, J)>) -> J {
    J::object(p)
}

#[test]
fn secret_equal_needs_same_bytes() {
    assert!(secret_equal(b"s3cret", b"s3cret"));
    assert!(!secret_equal(b"s3cret", b"s3creT"));
    assert!(!secret_equal(b"s3cret", b"s3cre"));
    assert!(secret_equal(b"", b""));
}

#[test]
fn routes_by_path_and_method() {
    assert_eq!(dispatch("GET", "/", "", ""), Step::Root);
    assert_eq!(dispatch("HEAD", "/health", "", ""), Step::Health);
    assert_eq!(dispatch("GET", "/v1/models", "", ""), Step::Models);
    assert_eq!(dispatch("GET", "/v1/presets", "", ""), Step::Presets);
    assert_eq!(dispatch("POST", "/v1/systemone", "", ""), Step::Decide);
    assert_eq!(dispatch("POST", "/v1/decide", "", ""), Step::Decide);
    assert_eq!(dispatch("POST", "/v1/decide/batch", "", ""), Step::Batch);
    assert_eq!(dispatch("GET", "/nowhere", "", ""), Step::NotFound);
    assert_eq!(dispatch("POST", "/health", "", ""), Step::MethodNotAllowed);
    assert_eq!(dispatch("GET", "/v1/decide", "", ""), Step::MethodNotAllowed);
    assert_eq!(allowed("/health"), Some("GET, HEAD"));
    assert_eq!(allowed("/v1/decide/batch"), Some("POST"));
    assert_eq!(allowed("/x"), None);
}

#[test]
fn bearer_key_guards_private_routes() {
    assert_eq!(dispatch("POST", "/v1/decide", "", "k1"), Step::Unauthorized);
    assert_eq!(dispatch("POST", "/v1/decide", "Bearer k2", "k1"), Step::Unauthorized);
    assert_eq!(dispatch("POST", "/v1/decide", "bearer k1", "k1"), Step::Unauthorized);
    assert_eq!(dispatch("POST", "/v1/decide", "Bearer k1", "k1"), Step::Decide);
    assert_eq!(dispatch("GET", "/v1/models", "Bearer k1", "k1"), Step::Models);
    assert_eq!(dispatch("GET", "/v1/models", "", "k1"), Step::Unauthorized);
    assert_eq!(dispatch("GET", "/health", "", "k1"), Step::Health);
    assert_eq!(dispatch("GET", "/v1/presets", "", "k1"), Step::Presets);
}

#[test]
fn content_type_must_name_json() {
    assert!(json_content("application/json"));
    assert!(json_content(" Application/JSON ; charset=utf-8"));
    assert!(!json_content("text/plain"));
    assert!(!json_content("application/json5"));
    assert!(!json_content(""));
}

#[test]
fn precheck_refusals() {
    let r = precheck(true, "application/json", 10).unwrap();
    assert_eq!((r.status, r.kind, r.message.as_str()), (503, "unavailable_error", "Server is shutting down"));
    let r = precheck(false, "text/plain", 10).unwrap();
    assert_eq!((r.status, r.kind, r.message.as_str()), (415, "invalid_request_error", "Content-Type must be application/json"));
    let r = precheck(false, "application/json", 1048577).unwrap();
    assert_eq!((r.status, r.kind, r.message.as_str()), (413, "invalid_request_error", "Request body exceeds 1 MiB"));
    assert!(precheck(false, "application/json", 1048576).is_none());
    assert!(precheck(false, "application/json", -1).is_none());
}

#[test]
fn expand_single_and_batch() {
    let one = obj(vec![("state", J::s("x"))]);
    let r = expand(one, false).unwrap();
    assert_eq!(r.len(), 1);
    assert_eq!(show(&r[0]), "{\"state\":\"x\"}");
    let batch = obj(vec![
        ("states", J::Arr(vec![J::s("a"), J::s("b")])),
        ("questions", obj(vec![("q", obj(vec![("type", J::s("noul"))]))])),
        ("permutations", J::Num(1.0f64.to_bits())),
    ]);
    let r = expand(batch, true).unwrap();
    assert_eq!(r.len(), 2);
    assert_eq!(
        show(&r[1]),
        "{\"state\":\"b\",\"questions\":{\"q\":{\"type\":\"noul\"}},\"model\":null,\"order_invariant\":null,\"permutations\":#3ff0000000000000}"
    );
    assert_eq!(expand(obj(vec![("states", J::Arr(vec![]))]), true).unwrap_err(), "states must be an array of 1..256 states");
    assert_eq!(expand(obj(vec![]), true).unwrap_err(), "states must be an array of 1..256 states");
}

#[test]
fn check_requires_object_and_state() {
    let presets = obj(vec![]);
    assert_eq!(check(&J::s("x"), &presets).unwrap_err(), "request body must be a JSON object");
    assert_eq!(check(&obj(vec![]), &presets).unwrap_err(), "state is required (or supply a preset)");
    assert_eq!(check(&obj(vec![("preset", J::s("nope"))]), &presets).unwrap_err(), "unknown preset");
    let ok = obj(vec![("state", J::s("s")), ("questions", obj(vec![]))]);
    assert_eq!(show(&check(&ok, &presets).unwrap()), show(&ok));
}

#[test]
fn question_budget_across_batch() {
    let qs = |n: usize| {
        let m: Vec<(String, J)> = (0..n).map(|i| (format!("q{i}"), J::Null)).collect();
        let mut o = obj(vec![]);
        if let J::Obj(v) = &mut o {
            *v = m;
        }
        obj(vec![("questions", o)])
    };
    assert!(!too_many_questions(&vec![qs(128), qs(128)]));
    assert!(too_many_questions(&vec![qs(128), qs(129)]));
    assert!(!too_many_questions(&vec![]));
}

#[test]
fn reply_bodies() {
    assert_eq!(
        show(&error_body("invalid_request_error", "bad")),
        "{\"error\":{\"type\":\"invalid_request_error\",\"message\":\"bad\"}}"
    );
    assert_eq!(
        show(&root_body()),
        "{\"service\":\"Laya / Goish Rust\",\"health\":\"/health\",\"decide\":\"/v1/systemone\",\"presets\":\"/v1/presets\"}"
    );
    let p = obj(vec![("email", obj(vec![("state_key", J::s("body"))]))]);
    assert_eq!(show(&presets_listing(&p)), "[{\"name\":\"email\",\"state_key\":\"body\"}]");
    let f = failure(true, "gone");
    assert_eq!((f.status, f.kind, f.message.as_str()), (408, "request_canceled", "gone"));
    let f = failure(false, "boom");
    assert_eq!((f.status, f.kind, f.message.as_str()), (500, "internal_error", "boom"));
}

#[test]
fn routing_refusals() {
    let r = route_refusal(Step::NotFound).unwrap();
    assert_eq!((r.status, r.kind, r.message.as_str()), (404, "not_found_error", "Endpoint not found"));
    let r = route_refusal(Step::MethodNotAllowed).unwrap();
    assert_eq!((r.status, r.kind, r.message.as_str()), (405, "invalid_request_error", "Method not allowed"));
    let r = route_refusal(Step::Unauthorized).unwrap();
    assert_eq!((r.status, r.kind, r.message.as_str()), (401, "authentication_error", "Invalid or missing bearer token"));
    assert!(route_refusal(Step::Decide).is_none());
    assert!(route_refusal(Step::Health).is_none());
    let b = busy();
    assert_eq!((b.status, b.kind, b.message.as_str()), (429, "busy_error", "An inference request is running; retry later"));
}

fn questions(n: usize) -> J {
    let m: Vec<(String, J)> = (0..n).map(|i| (format!("q{i}"), J::Null)).collect();
    J::Obj(m)
}

#[test]
fn prepare_checks_the_whole_batch_first() {
    let presets = obj(vec![]);
    let ok = |_: &J| -> Result<(), String> { Ok(()) };
    let batch = obj(vec![("states", J::Arr(vec![J::s("a"), J::s("b")])), ("questions", questions(2))]);
    let r = prepare(batch, true, &presets, &ok).unwrap();
    assert_eq!(r.len(), 2);
    assert_eq!(r[1].get("state").str(), "b");

    let picky = |x: &J| -> Result<(), String> {
        if x.get("state").str() == "b" { Err("no b".to_string()) } else { Ok(()) }
    };
    let batch = obj(vec![("states", J::Arr(vec![J::s("a"), J::s("b"), J::s("c")])), ("questions", questions(1))]);
    let f = prepare(batch, true, &presets, &picky).unwrap_err();
    assert_eq!((f.status, f.kind, f.message.as_str()), (422, "invalid_request_error", "no b"));

    let batch = obj(vec![("states", J::Arr(vec![J::s("a"), J::Null])), ("questions", questions(1))]);
    let f = prepare(batch, true, &presets, &ok).unwrap_err();
    assert_eq!(f.message, "state is required (or supply a preset)");

    let f = prepare(obj(vec![("states", J::Arr(vec![]))]), true, &presets, &ok).unwrap_err();
    assert_eq!((f.status, f.message.as_str()), (422, "states must be an array of 1..256 states"));

    let batch = obj(vec![("states", J::Arr(vec![J::s("a"), J::s("b")])), ("questions", questions(129))]);
    let f = prepare(batch, true, &presets, &ok).unwrap_err();
    assert_eq!(f.message, "At most 256 total questions per request");

    let single = obj(vec![("state", J::s("x")), ("questions", questions(256))]);
    assert_eq!(prepare(single, false, &presets, &ok).unwrap().len(), 1);
}

#[test]
fn api_key_prefers_the_first_name() {
    assert_eq!(api_key("one", "two"), "one");
    assert_eq!(api_key("", "two"), "two");
    assert_eq!(api_key("", ""), "");
    assert_eq!(api_key("one", ""), "one");
}
