//! HTTP decisions: routing, access, admission limits and batch expansion. Transport stays outside.
use vstd::prelude::*;
use crate::json::{J, JV};
use crate::text::{owned, str_eq, trim, trimmed};

verus! {

/// Constant-time comparison of two byte strings: equal lengths and no differing byte.
pub fn secret_equal(a: &[u8], b: &[u8]) -> (r: bool)
    ensures r == (a@ == b@),
{
    if a.len() != b.len() {
        return false;
    }
    let mut v: u8 = 0;
    let mut i: usize = 0;
    while i < a.len()
        invariant
            a@.len() == b@.len(),
            i <= a@.len(),
            (v == 0) == (forall|j: int| 0 <= j < i ==> a@[j] == b@[j]),
        decreases a@.len() - i,
    {
        let p = a[i];
        let q = b[i];
        let x = p ^ q;
        assert((x == 0) == (p == q)) by (bit_vector)
            requires x == p ^ q;
        let w = v | x;
        assert((w == 0) == (v == 0 && x == 0)) by (bit_vector)
            requires w == v | x;
        v = w;
        i = i + 1;
    }
    proof {
        if v == 0 {
            assert(a@ =~= b@);
        }
    }
    v == 0
}

/// What a request is routed to once its path, method and credentials pass.
#[derive(Debug, Clone, Copy, PartialEq, Eq, Structural)]
pub enum Step {
    NotFound,
    MethodNotAllowed,
    Unauthorized,
    Root,
    Health,
    Models,
    Presets,
    Decide,
    Batch,
}

/// The methods a path answers to: `GET, HEAD` or `POST`; none for an unknown path.
pub open spec fn allowed_spec(path: Seq<char>) -> Option<Seq<char>> {
    if path == "/"@ || path == "/health"@ || path == "/v1/models"@ || path == "/v1/presets"@ {
        Some("GET, HEAD"@)
    } else if path == "/v1/systemone"@ || path == "/v1/decide"@ || path == "/v1/decide/batch"@ {
        Some("POST"@)
    } else {
        None
    }
}

/// Paths that need no credentials.
pub open spec fn public_path(path: Seq<char>) -> bool {
    path == "/"@ || path == "/health"@ || path == "/v1/presets"@
}

/// `Authorization` carries `Bearer ` and then exactly the key.
pub open spec fn bearer_matches(auth: Seq<char>, key: Seq<char>) -> bool {
    auth.len() >= 7 && auth.subrange(0, 7) == "Bearer "@ && auth.subrange(7, auth.len() as int) == key
}

/// How a request is routed.
pub open spec fn dispatch_spec(method: Seq<char>, path: Seq<char>, auth: Seq<char>, key: Seq<char>) -> Step {
    match allowed_spec(path) {
        None => Step::NotFound,
        Some(allowed) => {
            if (allowed == "GET, HEAD"@ && method != "GET"@ && method != "HEAD"@)
                || (allowed == "POST"@ && method != "POST"@) {
                Step::MethodNotAllowed
            } else if !public_path(path) && key.len() > 0 && !bearer_matches(auth, key) {
                Step::Unauthorized
            } else if path == "/"@ {
                Step::Root
            } else if path == "/health"@ {
                Step::Health
            } else if path == "/v1/models"@ {
                Step::Models
            } else if path == "/v1/presets"@ {
                Step::Presets
            } else if path == "/v1/decide/batch"@ {
                Step::Batch
            } else {
                Step::Decide
            }
        },
    }
}

/// The methods a path answers to (the `Allow` header for a wrong method).
pub fn allowed(path: &str) -> (r: Option<&'static str>)
    ensures
        match allowed_spec(path@) {
            Some(a) => r matches Some(x) && x@ == a,
            None => r is None,
        },
{
    if str_eq(path, "/") || str_eq(path, "/health") || str_eq(path, "/v1/models") || str_eq(path, "/v1/presets") {
        Some("GET, HEAD")
    } else if str_eq(path, "/v1/systemone") || str_eq(path, "/v1/decide") || str_eq(path, "/v1/decide/batch") {
        Some("POST")
    } else {
        None
    }
}

/// Whether `auth` is `Bearer ` followed by `key` (compared in constant time).
fn bearer(auth: &str, key: &str) -> (r: bool)
    ensures r == bearer_matches(auth@, key@),
{
    let cs = crate::text::chars_of(auth);
    if cs.len() < 7 {
        return false;
    }
    let head = crate::text::string_of_chars(vstd::slice::slice_subrange(cs.as_slice(), 0, 7));
    if !str_eq(head.as_str(), "Bearer ") {
        return false;
    }
    let rest = crate::text::string_of_chars(vstd::slice::slice_subrange(cs.as_slice(), 7, cs.len()));
    let r = secret_equal(rest.as_str().as_bytes(), key.as_bytes());
    proof {
        if r {
            vstd::utf8::encode_utf8_decode_utf8(rest@);
            vstd::utf8::encode_utf8_decode_utf8(key@);
        }
    }
    r
}

/// Routes a request by method, path and credentials; `key` empty means no credentials are needed.
pub fn dispatch(method: &str, path: &str, auth: &str, key: &str) -> (r: Step)
    ensures r == dispatch_spec(method@, path@, auth@, key@),
{
    let a = match allowed(path) {
        Some(a) => a,
        None => {
            return Step::NotFound;
        },
    };
    let get = str_eq(a, "GET, HEAD");
    let post = str_eq(a, "POST");
    if (get && !str_eq(method, "GET") && !str_eq(method, "HEAD")) || (post && !str_eq(method, "POST")) {
        return Step::MethodNotAllowed;
    }
    let public = str_eq(path, "/") || str_eq(path, "/health") || str_eq(path, "/v1/presets");
    if !public && !crate::text::is_empty_text(key) && !bearer(auth, key) {
        return Step::Unauthorized;
    }
    if str_eq(path, "/") {
        Step::Root
    } else if str_eq(path, "/health") {
        Step::Health
    } else if str_eq(path, "/v1/models") {
        Step::Models
    } else if str_eq(path, "/v1/presets") {
        Step::Presets
    } else if str_eq(path, "/v1/decide/batch") {
        Step::Batch
    } else {
        Step::Decide
    }
}

/// The API key: the first one named, or else the second (`LAYA_API_KEY`, then
/// `TYPESAFE_API_KEY`); an empty key means no credentials are needed.
pub fn api_key(first: &str, second: &str) -> (r: String)
    ensures r@ == (if first@.len() > 0 { first@ } else { second@ }),
{
    if crate::text::is_empty_text(first) { owned(second) } else { owned(first) }
}

/// The root description, health and presets answer without credentials, whatever key is set.
pub proof fn lemma_public_paths_open(method: Seq<char>, path: Seq<char>, auth: Seq<char>, key: Seq<char>)
    requires public_path(path),
    ensures dispatch_spec(method, path, auth, key) != Step::Unauthorized,
{
}

/// Without a key every route is open; with one, a private route that is asked with its method
/// is refused exactly when `Authorization` is not `Bearer ` followed by the key.
pub proof fn lemma_bearer_exact(method: Seq<char>, path: Seq<char>, auth: Seq<char>, key: Seq<char>)
    ensures
        key.len() == 0 ==> dispatch_spec(method, path, auth, key) != Step::Unauthorized,
        (dispatch_spec(method, path, auth, key) == Step::Unauthorized) ==> auth != "Bearer "@ + key,
        (key.len() > 0 && !public_path(path) && allowed_spec(path) is Some
            && dispatch_spec(method, path, auth, key) != Step::MethodNotAllowed) ==>
            ((dispatch_spec(method, path, auth, key) == Step::Unauthorized) <==> auth != "Bearer "@ + key),
{
    reveal_strlit("Bearer ");
    let full = "Bearer "@ + key;
    assert(full.subrange(0, 7) =~= "Bearer "@);
    assert(full.subrange(7, full.len() as int) =~= key);
    if auth.len() >= 7 && auth.subrange(0, 7) == "Bearer "@ && auth.subrange(7, auth.len() as int) == key {
        assert(auth =~= full);
    }
}

/// An HTTP error reply: status, error type and message.
#[derive(Debug)]
pub struct Refusal {
    pub status: u16,
    pub kind: &'static str,
    pub message: String,
}

/// The text before the first `;` (all of it when there is none).
pub open spec fn before_semicolon(s: Seq<char>) -> Seq<char>
    decreases s.len(),
{
    if s.len() == 0 {
        s
    } else if s[0] == ';' {
        Seq::empty()
    } else {
        seq![s[0]] + before_semicolon(s.drop_first())
    }
}

/// `a` equals `b` ignoring ASCII case (`eq_ignore_ascii_case`, for an ASCII `b`).
pub open spec fn same_ignoring_case(a: Seq<char>, b: Seq<char>) -> bool {
    a.len() == b.len() && forall|i: int| 0 <= i < a.len() ==> #[trigger] crate::pretok::lower(a[i]) == crate::pretok::lower(b[i])
}

/// The media type names JSON.
pub open spec fn json_media(content_type: Seq<char>) -> bool {
    same_ignoring_case(trimmed(before_semicolon(content_type)), "application/json"@)
}

/// Whether a `Content-Type` header names JSON (parameters after `;` ignored).
pub fn json_content(content_type: &str) -> (r: bool)
    ensures r == json_media(content_type@),
{
    let cs = crate::text::chars_of(content_type);
    let mut n: usize = 0;
    assert(cs@.subrange(0, cs@.len() as int) =~= cs@);
    assert(Seq::<char>::empty() + before_semicolon(cs@) =~= before_semicolon(cs@));
    assert(cs@.subrange(0, 0) =~= Seq::<char>::empty());
    while n < cs.len() && cs[n] != ';'
        invariant
            cs@ == content_type@,
            n <= cs@.len(),
            before_semicolon(cs@) == cs@.subrange(0, n as int) + before_semicolon(cs@.subrange(n as int, cs@.len() as int)),
        decreases cs@.len() - n,
    {
        let ghost t = cs@.subrange(n as int, cs@.len() as int);
        assert(t.drop_first() =~= cs@.subrange(n + 1, cs@.len() as int));
        assert(cs@.subrange(0, n + 1) =~= cs@.subrange(0, n as int) + seq![cs@[n as int]]);
        n = n + 1;
    }
    assert(before_semicolon(cs@.subrange(n as int, cs@.len() as int)) =~= Seq::<char>::empty());
    assert(cs@.subrange(0, n as int) + Seq::<char>::empty() =~= cs@.subrange(0, n as int));
    let head = crate::text::string_of_chars(vstd::slice::slice_subrange(cs.as_slice(), 0, n));
    let t = trim(head.as_str());
    let tc = crate::text::chars_of(t.as_str());
    let target = crate::text::chars_of("application/json");
    assert(head@ == before_semicolon(content_type@));
    if tc.len() != target.len() {
        return false;
    }
    let mut i: usize = 0;
    while i < tc.len()
        invariant
            tc@.len() == target@.len(),
            tc@ == trimmed(before_semicolon(content_type@)),
            target@ == "application/json"@,
            i <= tc@.len(),
            forall|j: int| 0 <= j < i ==> #[trigger] crate::pretok::lower(tc@[j]) == crate::pretok::lower(target@[j]),
        decreases tc@.len() - i,
    {
        let a = tc[i];
        let b = target[i];
        let la = crate::pretok::lower_char(a);
        let lb = crate::pretok::lower_char(b);
        if la != lb {
            return false;
        }
        i = i + 1;
    }
    true
}

/// Why a decision request is refused before its body is read, if it is.
pub open spec fn precheck_spec(draining: bool, content_type: Seq<char>, content_length: i64) -> Option<(u16, Seq<char>, Seq<char>)> {
    if draining {
        Some((503, "unavailable_error"@, "Server is shutting down"@))
    } else if !json_media(content_type) {
        Some((415, "invalid_request_error"@, "Content-Type must be application/json"@))
    } else if content_length > 1048576 {
        Some((413, "invalid_request_error"@, "Request body exceeds 1 MiB"@))
    } else {
        None
    }
}

pub open spec fn refusal_view(r: Refusal) -> (u16, Seq<char>, Seq<char>) {
    (r.status, r.kind@, r.message@)
}

fn refuse(status: u16, kind: &'static str, message: &str) -> (r: Refusal)
    ensures r.status == status && r.kind@ == kind@ && r.message@ == message@,
{
    Refusal { status, kind, message: owned(message) }
}

/// Refuses a decision request while draining, for a non-JSON content type, or for a declared
/// body over 1 MiB.
pub fn precheck(draining: bool, content_type: &str, content_length: i64) -> (r: Option<Refusal>)
    ensures
        match precheck_spec(draining, content_type@, content_length) {
            Some(x) => r matches Some(y) && refusal_view(y) == x,
            None => r is None,
        },
{
    if draining {
        Some(refuse(503, "unavailable_error", "Server is shutting down"))
    } else if !json_content(content_type) {
        Some(refuse(415, "invalid_request_error", "Content-Type must be application/json"))
    } else if content_length > 1048576 {
        Some(refuse(413, "invalid_request_error", "Request body exceeds 1 MiB"))
    } else {
        None
    }
}

/// The requests a decision body stands for: itself, or one per state of a batch, each carrying the
/// batch's questions, model and ordering options.
pub open spec fn expand_spec(req: JV, batch: bool) -> Result<Seq<JV>, Seq<char>> {
    if !batch {
        Ok(seq![req])
    } else {
        let states = req.get("states"@).items();
        if states.len() == 0 || states.len() > 256 {
            Err("states must be an array of 1..256 states"@)
        } else {
            Ok(Seq::new(states.len(), |i: int| JV::Obj(seq![
                ("state"@, states[i]),
                ("questions"@, req.get("questions"@)),
                ("model"@, req.get("model"@)),
                ("order_invariant"@, req.get("order_invariant"@)),
                ("permutations"@, req.get("permutations"@)),
            ])))
        }
    }
}

pub open spec fn json_views(v: Seq<J>) -> Seq<JV> {
    Seq::new(v.len(), |i: int| v[i]@)
}

/// Expands a batch body into its requests (in state order); any other body is one request.
pub fn expand(req: J, batch: bool) -> (r: Result<Vec<J>, String>)
    ensures
        match expand_spec(req@, batch) {
            Ok(v) => r matches Ok(x) && json_views(x@) == v,
            Err(e) => r matches Err(m) && m@ == e,
        },
{
    if !batch {
        let ghost rv = req@;
        let v = vec![req];
        assert(json_views(v@) =~= seq![rv]);
        return Ok(v);
    }
    let states = req.get("states").arr();
    if states.len() == 0 || states.len() > 256 {
        return Err(owned("states must be an array of 1..256 states"));
    }
    let ghost goal = expand_spec(req@, batch)->Ok_0;
    let mut out: Vec<J> = Vec::new();
    let mut i: usize = 0;
    while i < states.len()
        invariant
            states@.len() == req@.get("states"@).items().len(),
            forall|j: int| 0 <= j < states@.len() ==> #[trigger] states@[j]@ == req@.get("states"@).items()[j],
            goal == expand_spec(req@, batch)->Ok_0,
            goal.len() == states@.len(),
            batch,
            0 < states@.len() <= 256,
            i <= states@.len(),
            out@.len() == i,
            forall|j: int| 0 <= j < i ==> #[trigger] out@[j]@ == goal[j],
        decreases states@.len() - i,
    {
        let o = J::object(vec![
            ("state", states[i].copy()),
            ("questions", req.get("questions").copy()),
            ("model", req.get("model").copy()),
            ("order_invariant", req.get("order_invariant").copy()),
            ("permutations", req.get("permutations").copy()),
        ]);
        assert(o@->Obj_0 =~= goal[i as int]->Obj_0);
        out.push(o);
        i = i + 1;
    }
    assert(json_views(out@) =~= goal);
    Ok(out)
}

/// Each request of a batch carries its own state and the batch's questions, model and ordering
/// options, in the order of the states.
pub proof fn lemma_batch_preserves(req: JV, i: int)
    requires
        expand_spec(req, true) is Ok,
        0 <= i < req.get("states"@).items().len(),
    ensures ({
        let r = expand_spec(req, true)->Ok_0[i];
        &&& expand_spec(req, true)->Ok_0.len() == req.get("states"@).items().len()
        &&& r.get("state"@) == req.get("states"@).items()[i]
        &&& r.get("questions"@) == req.get("questions"@)
        &&& r.get("model"@) == req.get("model"@)
        &&& r.get("order_invariant"@) == req.get("order_invariant"@)
        &&& r.get("permutations"@) == req.get("permutations"@)
    }),
{
    reveal_strlit("state");
    reveal_strlit("questions");
    reveal_strlit("model");
    reveal_strlit("order_invariant");
    reveal_strlit("permutations");
    let m = expand_spec(req, true)->Ok_0[i]->Obj_0;
    assert("state"@.len() != "questions"@.len() && "state"@.len() != "order_invariant"@.len());
    assert("state"@[0] != "model"@[0]);
    assert("questions"@.len() != "model"@.len() && "questions"@.len() != "order_invariant"@.len());
    assert("model"@.len() != "order_invariant"@.len() && "model"@.len() != "permutations"@.len());
    assert("order_invariant"@.len() != "permutations"@.len());
    assert("questions"@.len() != "permutations"@.len());
    assert("state"@.len() != "permutations"@.len());
    crate::json::lemma_find_key_first(m, "state"@, 0);
    crate::json::lemma_find_key_first(m, "questions"@, 1);
    crate::json::lemma_find_key_first(m, "model"@, 2);
    crate::json::lemma_find_key_first(m, "order_invariant"@, 3);
    crate::json::lemma_find_key_first(m, "permutations"@, 4);
}

/// Why a decision request is rejected before it reaches a model, or the request it resolves to.
pub open spec fn check_spec(req: JV, presets: JV) -> Result<JV, Seq<char>> {
    if !(req is Obj) {
        Err("request body must be a JSON object"@)
    } else if req.get("state"@) is Null && req.get("preset"@).text().len() == 0 {
        Err("state is required (or supply a preset)"@)
    } else {
        crate::request::resolve_spec(req, presets)
    }
}

/// A decision request must be an object with a state or a preset; presets are expanded.
pub fn check(req: &J, presets: &J) -> (r: Result<J, String>)
    ensures
        match check_spec(req@, presets@) {
            Ok(v) => r matches Ok(x) && x@ == v,
            Err(e) => r matches Err(m) && m@ == e,
        },
{
    match req {
        J::Obj(_) => {},
        _ => {
            return Err(owned("request body must be a JSON object"));
        },
    }
    if req.get("state").is_null() && crate::text::is_empty_text(req.get("preset").str()) {
        return Err(owned("state is required (or supply a preset)"));
    }
    crate::request::resolve(req, presets)
}

/// The number of questions across requests (capped at the largest `usize`).
pub open spec fn question_total(rs: Seq<JV>, n: int) -> int
    decreases n,
{
    if n <= 0 { 0 } else { question_total(rs, n - 1) + rs[n - 1].get("questions"@).members().len() }
}

/// Whether the requests ask more than 256 questions together.
pub fn too_many_questions(rs: &Vec<J>) -> (r: bool)
    ensures r == (question_total(json_views(rs@), rs@.len() as int) > 256),
{
    let ghost v = json_views(rs@);
    let mut total: usize = 0;
    let mut i: usize = 0;
    while i < rs.len()
        invariant
            v == json_views(rs@),
            i <= rs@.len(),
            total == question_total(v, i as int),
            total <= 256,
        decreases rs@.len() - i,
    {
        let n = rs[i].get("questions").obj().len();
        assert(v[i as int] == rs@[i as int]@);
        if n > 256 - total {
            proof { lemma_total_grows(v, i + 1, rs@.len() as int); }
            return true;
        }
        total = total + n;
        i = i + 1;
    }
    false
}

proof fn lemma_total_grows(rs: Seq<JV>, i: int, j: int)
    requires 0 <= i <= j,
    ensures question_total(rs, i) <= question_total(rs, j),
    decreases j - i,
{
    if j > i {
        lemma_total_grows(rs, i, j - 1);
    }
}

/// The error reply body.
pub fn error_body(kind: &str, message: &str) -> (r: J)
    ensures r@ == JV::Obj(seq![("error"@, JV::Obj(seq![("type"@, JV::Str(kind@)), ("message"@, JV::Str(message@))]))]),
{
    let inner = J::object(vec![("type", J::s(kind)), ("message", J::s(message))]);
    assert(inner@->Obj_0 =~= seq![("type"@, JV::Str(kind@)), ("message"@, JV::Str(message@))]);
    let r = J::object(vec![("error", inner)]);
    assert(r@->Obj_0 =~= seq![("error"@, inner@)]);
    r
}

/// The service description served at `/`.
pub fn root_body() -> (r: J)
    ensures r@ == JV::Obj(seq![
        ("service"@, JV::Str("Laya / Goish Rust"@)),
        ("health"@, JV::Str("/health"@)),
        ("decide"@, JV::Str("/v1/systemone"@)),
        ("presets"@, JV::Str("/v1/presets"@)),
    ]),
{
    let r = J::object(vec![
        ("service", J::s("Laya / Goish Rust")),
        ("health", J::s("/health")),
        ("decide", J::s("/v1/systemone")),
        ("presets", J::s("/v1/presets")),
    ]);
    assert(r@->Obj_0 =~= seq![
        ("service"@, JV::Str("Laya / Goish Rust"@)),
        ("health"@, JV::Str("/health"@)),
        ("decide"@, JV::Str("/v1/systemone"@)),
        ("presets"@, JV::Str("/v1/presets"@)),
    ]);
    r
}

/// The `/health` reply: status code and body.
pub open spec fn health_spec(draining: bool, busy: bool, r: crate::registry::RegistryV) -> (u16, JV) {
    let d = r.models[r.default as int];
    (if draining { 503u16 } else { 200u16 }, JV::Obj(seq![
        ("status"@, JV::Str(if draining { "draining"@ } else { "ok"@ })),
        ("model"@, JV::Str(d.name)),
        ("family"@, JV::Str(d.family)),
        ("device"@, JV::Str("cpu"@)),
        ("models"@, JV::Arr(crate::registry::canonical_names(r))),
        ("busy"@, JV::Bool(busy)),
    ]))
}

/// Readiness: the default model, the loaded models, and whether inference is running.
pub fn health(draining: bool, busy: bool, registry: &crate::registry::Registry) -> (r: (u16, J))
    requires registry.wf(),
    ensures r.0 == health_spec(draining, busy, registry@).0 && r.1@ == health_spec(draining, busy, registry@).1,
{
    let d = registry.info(registry.default_model());
    let r = J::object(vec![
        ("status", J::s(if draining { "draining" } else { "ok" })),
        ("model", J::s(d.name.as_str())),
        ("family", J::s(d.family.as_str())),
        ("device", J::s("cpu")),
        ("models", registry.loaded_names()),
        ("busy", J::Bool(busy)),
    ]);
    assert(r@->Obj_0 =~= health_spec(draining, busy, registry@).1->Obj_0);
    (if draining { 503 } else { 200 }, r)
}

/// The preset listing: each preset's fields after its name.
pub open spec fn presets_spec(presets: JV) -> JV {
    let m = presets.members();
    JV::Arr(Seq::new(m.len(), |i: int| JV::Obj(seq![("name"@, JV::Str(m[i].0))] + m[i].1.members())))
}

/// Lists the presets, each as its fields with its name first.
pub fn presets_listing(presets: &J) -> (r: J)
    ensures r@ == presets_spec(presets@),
{
    let m = presets.obj();
    let ghost goal = presets_spec(presets@)->Arr_0;
    let mut out: Vec<J> = Vec::new();
    let mut i: usize = 0;
    while i < m.len()
        invariant
            m@.len() == presets@.members().len(),
            forall|j: int| 0 <= j < m@.len() ==> (#[trigger] m@[j]).0@ == presets@.members()[j].0
                && m@[j].1@ == presets@.members()[j].1,
            goal == presets_spec(presets@)->Arr_0,
            goal.len() == m@.len(),
            i <= m@.len(),
            out@.len() == i,
            forall|j: int| 0 <= j < i ==> #[trigger] out@[j]@ == goal[j],
        decreases m@.len() - i,
    {
        let fields = m[i].1.obj();
        let mut v: Vec<(String, J)> = Vec::new();
        v.push((owned("name"), J::s(m[i].0.as_str())));
        let mut k: usize = 0;
        while k < fields.len()
            invariant
                fields@.len() == m@[i as int].1@.members().len(),
                forall|j: int| 0 <= j < fields@.len() ==> (#[trigger] fields@[j]).0@ == m@[i as int].1@.members()[j].0
                    && fields@[j].1@ == m@[i as int].1@.members()[j].1,
                k <= fields@.len(),
                v@.len() == k + 1,
                v@[0].0@ == "name"@ && v@[0].1@ == JV::Str(m@[i as int].0@),
                forall|j: int| 0 <= j < k ==> (#[trigger] v@[j + 1]).0@ == fields@[j].0@ && v@[j + 1].1@ == fields@[j].1@,
            decreases fields@.len() - k,
        {
            v.push((fields[k].0.clone(), fields[k].1.copy()));
            k = k + 1;
        }
        proof {
            crate::json::lemma_jv_members(v@);
            let want = seq![("name"@, JV::Str(m@[i as int].0@))] + m@[i as int].1@.members();
            assert forall|j: int| 0 <= j < v@.len() implies crate::json::jv_members(v@)[j] == want[j] by {
                if j > 0 {
                    assert(v@[(j - 1) + 1].0@ == fields@[j - 1].0@);
                }
            }
            assert(crate::json::jv_members(v@) =~= want);
            assert(m@[i as int].0@ == presets@.members()[i as int].0);
        }
        out.push(J::Obj(v));
        i = i + 1;
    }
    proof {
        crate::json::lemma_jv_items(out@);
        assert forall|j: int| 0 <= j < out@.len() implies crate::json::jv_items(out@)[j] == goal[j] by {
            assert(out@[j]@ == goal[j]);
        }
        assert(crate::json::jv_items(out@) =~= goal);
    }
    J::Arr(out)
}

/// The reply for a failed decision: 408 when the client went away, 500 otherwise.
pub fn failure(canceled: bool, message: &str) -> (r: Refusal)
    ensures
        r.status == (if canceled { 408u16 } else { 500u16 }),
        r.kind@ == (if canceled { "request_canceled"@ } else { "internal_error"@ }),
        r.message@ == message@,
{
    if canceled { refuse(408, "request_canceled", message) } else { refuse(500, "internal_error", message) }
}

/// The reply for a request that routing turns away, if it does.
pub open spec fn route_refusal_spec(step: Step) -> Option<(u16, Seq<char>, Seq<char>)> {
    match step {
        Step::NotFound => Some((404, "not_found_error"@, "Endpoint not found"@)),
        Step::MethodNotAllowed => Some((405, "invalid_request_error"@, "Method not allowed"@)),
        Step::Unauthorized => Some((401, "authentication_error"@, "Invalid or missing bearer token"@)),
        _ => None,
    }
}

/// The reply for an unknown path, a wrong method or missing credentials; none for a route that
/// is served.
pub fn route_refusal(step: Step) -> (r: Option<Refusal>)
    ensures
        match route_refusal_spec(step) {
            Some(x) => r matches Some(y) && refusal_view(y) == x,
            None => r is None,
        },
{
    match step {
        Step::NotFound => Some(refuse(404, "not_found_error", "Endpoint not found")),
        Step::MethodNotAllowed => Some(refuse(405, "invalid_request_error", "Method not allowed")),
        Step::Unauthorized => Some(refuse(401, "authentication_error", "Invalid or missing bearer token")),
        _ => None,
    }
}

/// The reply while another inference runs.
pub fn busy() -> (r: Refusal)
    ensures refusal_view(r) == (429u16, "busy_error"@, "An inference request is running; retry later"@),
{
    refuse(429, "busy_error", "An inference request is running; retry later")
}

/// `v` is a request that `accept` took: some call on an equal value returned `Ok`.
pub open spec fn accepted<F: Fn(&J) -> Result<(), String>>(accept: F, v: JV) -> bool {
    exists|x: J, out: Result<(), String>| x@ == v && call_ensures(accept, (&x,), out) && out is Ok
}

/// `accept` refused `v` with `msg`.
pub open spec fn refused_by<F: Fn(&J) -> Result<(), String>>(accept: F, v: JV, msg: Seq<char>) -> bool {
    exists|x: J, out: Result<(), String>| x@ == v && call_ensures(accept, (&x,), out) && out is Err && out->Err_0@ == msg
}

/// The first `n` requests resolved to `out` and were accepted.
pub open spec fn admitted_upto<F: Fn(&J) -> Result<(), String>>(accept: F, presets: JV, reqs: Seq<JV>, out: Seq<JV>, n: int) -> bool {
    &&& out.len() == n
    &&& forall|i: int| 0 <= i < n ==> #[trigger] check_spec(reqs[i], presets) == Ok::<JV, Seq<char>>(out[i])
    &&& forall|i: int| 0 <= i < n ==> #[trigger] accepted(accept, out[i])
}

/// Request `i` is the first one turned away, with `msg`: it does not resolve, or `accept` refuses it.
pub open spec fn first_refused<F: Fn(&J) -> Result<(), String>>(accept: F, presets: JV, reqs: Seq<JV>, i: int, msg: Seq<char>) -> bool {
    &&& 0 <= i < reqs.len()
    &&& exists|out: Seq<JV>| #[trigger] admitted_upto(accept, presets, reqs, out, i)
    &&& match check_spec(reqs[i], presets) {
        Err(e) => msg == e,
        Ok(v) => refused_by(accept, v, msg),
    }
}

/// Why a decision body is turned away before inference (with status 422), if it is.
pub open spec fn admission<F: Fn(&J) -> Result<(), String>>(accept: F, req: JV, batch: bool, presets: JV,
    r: Result<Seq<JV>, Seq<char>>) -> bool
{
    match expand_spec(req, batch) {
        Err(e) => r == Err::<Seq<JV>, Seq<char>>(e),
        Ok(reqs) => match r {
            Ok(out) => admitted_upto(accept, presets, reqs, out, reqs.len() as int)
                && question_total(out, out.len() as int) <= 256,
            Err(msg) => (exists|i: int| #[trigger] first_refused(accept, presets, reqs, i, msg))
                || ((exists|out: Seq<JV>| admitted_upto(accept, presets, reqs, out, reqs.len() as int)
                    && question_total(out, out.len() as int) > 256)
                    && msg == "At most 256 total questions per request"@),
        },
    }
}

/// A refusal of request `i` is the body's refusal.
proof fn lemma_refused<F: Fn(&J) -> Result<(), String>>(accept: F, req: JV, batch: bool, presets: JV, rs: Seq<JV>,
    i: int, msg: Seq<char>)
    requires
        expand_spec(req, batch) == Ok::<Seq<JV>, Seq<char>>(rs),
        first_refused(accept, presets, rs, i, msg),
    ensures admission(accept, req, batch, presets, Err(msg)),
{
    let reqs = expand_spec(req, batch)->Ok_0;
    assert(reqs == rs);
    assert(first_refused(accept, presets, reqs, i, msg));
    assert(exists|k: int| #[trigger] first_refused(accept, presets, reqs, k, msg));
}

/// The requests a decision body stands for, each resolved and accepted by the model (`accept`),
/// or the reply for the first that is not: the whole batch is checked before any inference, and
/// it may ask at most 256 questions in all.
pub fn prepare<F: Fn(&J) -> Result<(), String>>(req: J, batch: bool, presets: &J, accept: &F) -> (r: Result<Vec<J>, Refusal>)
    requires forall|x: &J| call_requires(*accept, (x,)),
    ensures
        r is Err ==> r->Err_0.status == 422 && r->Err_0.kind@ == "invalid_request_error"@,
        admission(*accept, req@, batch, presets@, match r {
            Ok(v) => Ok(json_views(v@)),
            Err(f) => Err(f.message@),
        }),
{
    let ghost rv = req@;
    let reqs = match expand(req, batch) {
        Ok(v) => v,
        Err(e) => return Err(refuse(422, "invalid_request_error", e.as_str())),
    };
    let ghost rs = json_views(reqs@);
    let mut out: Vec<J> = Vec::new();
    let mut i: usize = 0;
    while i < reqs.len()
        invariant
            forall|x: &J| call_requires(*accept, (x,)),
            rs == json_views(reqs@),
            rv == req@,
            expand_spec(rv, batch) == Ok::<Seq<JV>, Seq<char>>(rs),
            i <= reqs@.len(),
            admitted_upto(*accept, presets@, rs, json_views(out@), i as int),
        decreases reqs@.len() - i,
    {
        let ghost before = json_views(out@);
        assert(rs[i as int] == reqs@[i as int]@);
        let checked = check(&reqs[i], presets);
        match checked {
            Ok(v) => {
                assert(check_spec(rs[i as int], presets@) == Ok::<JV, Seq<char>>(v@));
                let verdict = accept(&v);
                match verdict {
                    Ok(()) => {
                        proof {
                            assert(v@ == v@ && call_ensures(*accept, (&v,), verdict) && verdict is Ok);
                            assert(accepted(*accept, v@));
                        }
                        out.push(v);
                        proof {
                            let now = json_views(out@);
                            assert(now =~= before.push(v@));
                            assert forall|k: int| 0 <= k < i + 1 implies
                                #[trigger] check_spec(rs[k], presets@) == Ok::<JV, Seq<char>>(now[k]) by {
                                if k < i { assert(now[k] == before[k]); }
                            }
                            assert forall|k: int| 0 <= k < i + 1 implies #[trigger] accepted(*accept, now[k]) by {
                                if k < i { assert(now[k] == before[k]); }
                            }
                        }
                    },
                    Err(e) => {
                        proof {
                            assert(v@ == v@ && call_ensures(*accept, (&v,), verdict) && verdict is Err
                                && verdict->Err_0@ == e@);
                            assert(refused_by(*accept, v@, e@));
                            assert(admitted_upto(*accept, presets@, rs, before, i as int));
                            lemma_refused(*accept, req@, batch, presets@, rs, i as int, e@);
                        }
                        return Err(refuse(422, "invalid_request_error", e.as_str()));
                    },
                }
            },
            Err(e) => {
                proof {
                    assert(check_spec(rs[i as int], presets@) == Err::<JV, Seq<char>>(e@));
                    assert(admitted_upto(*accept, presets@, rs, before, i as int));
                    lemma_refused(*accept, req@, batch, presets@, rs, i as int, e@);
                }
                return Err(refuse(422, "invalid_request_error", e.as_str()));
            },
        }
        i = i + 1;
    }
    if too_many_questions(&out) {
        let f = refuse(422, "invalid_request_error", "At most 256 total questions per request");
        proof {
            let ov = json_views(out@);
            assert(admitted_upto(*accept, presets@, rs, ov, rs.len() as int));
            assert(question_total(ov, ov.len() as int) > 256);
        }
        return Err(f);
    }
    Ok(out)
}

} // verus!
