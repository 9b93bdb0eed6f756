use laya::json::J;
use laya::request::{chosen_preset, preset_request, resolve, set_text};

fn show(j: &J) -> String {
    match j {
        J::Null => "null".to_string(),
        J::Bool(b) => b.to_string(),
        J::Num(n) => format!("#{:x}", n),
        J::Str(s) => format!("{:?}", s),
        J::Arr(v) => format!("[{}]", v.iter().map(show).collect::<Vec<_>>().join(",")),
        J::Obj(v) => format!(
            "{{{}}}",
            v.iter().map(|(k, x)| format!("{:?}:{}", k, show(x))).collect::<Vec<_>>().join(",")
        ),
    }
}

fn presets() -> J {
    J::object(vec![(
        "email",
        J::object(vec![
            ("state_key", J::s("body")),
            ("state", J::object(vec![("subject", J::s("hi")), ("body", J::s(""))])),
            ("questions", J::object(vec![("spam", J::object(vec![("type", J::s("noul"))]))])),
        ]),
    )])
}

#[test]
fn set_text_fills_or_appends() {
    let st = J::object(vec![("a", J::s("1")), ("body", J::s("old"))]);
    assert_eq!(show(&set_text(st, "body", &"new".to_string())), "{\"a\":\"1\",\"body\":\"new\"}");
    let st = J::object(vec![("a", J::s("1"))]);
    assert_eq!(show(&set_text(st, "body", &"new".to_string())), "{\"a\":\"1\",\"body\":\"new\"}");
    assert_eq!(show(&set_text(J::s("x"), "body", &"new".to_string())), "\"new\"");
}

#[test]
fn resolve_expands_presets() {
    let req = J::object(vec![("preset", J::s("email")), ("text", J::s("Win money")), ("id", J::s("r1"))]);
    let r = resolve(&req, &presets()).unwrap();
    assert_eq!(
        show(&r),
        "{\"state\":{\"subject\":\"hi\",\"body\":\"Win money\"},\"questions\":{\"spam\":{\"type\":\"noul\"}},\"id\":\"r1\",\"order_invariant\":null,\"permutations\":null}"
    );
    let bad = J::object(vec![("preset", J::s("sms"))]);
    assert_eq!(resolve(&bad, &presets()).unwrap_err(), "unknown preset");
}

#[test]
fn resolve_leaves_explicit_requests() {
    let req = J::object(vec![("state", J::s("s")), ("questions", J::object(vec![])), ("preset", J::s("email"))]);
    assert_eq!(show(&resolve(&req, &presets()).unwrap()), show(&req));
    let req = J::object(vec![("state", J::s("s"))]);
    assert_eq!(show(&resolve(&req, &presets()).unwrap()), show(&req));
}

#[test]
fn command_line_presets() {
    assert_eq!(chosen_preset(&presets(), Some(&"sms".to_string())).unwrap_err(), "unknown preset");
    let p = chosen_preset(&presets(), None).unwrap();
    let r = preset_request(&p, None, Some(&"hello".to_string()), None);
    assert_eq!(
        show(&r),
        "{\"state\":{\"subject\":\"hi\",\"body\":\"hello\"},\"questions\":{\"spam\":{\"type\":\"noul\"}}}"
    );
    let r = preset_request(&p, Some(J::s("plain")), Some(&"t".to_string()), Some(J::object(vec![])));
    assert_eq!(show(&r), "{\"state\":\"t\",\"questions\":{}}");
}
