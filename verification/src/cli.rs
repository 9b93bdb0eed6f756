//! Command-line parsing: which command runs, on which model, with which options.
use vstd::prelude::*;
use crate::text::{chars_of, owned, str_eq, views};

verus! {

/// The value of a digit character.
pub open spec fn digit_value(c: char) -> int {
    c as int - 48
}

pub open spec fn is_digit(c: char) -> bool {
    '0' <= c <= '9'
}

/// The number written by the digits `s[..n]`.
pub open spec fn digits_value(s: Seq<char>, n: int) -> int
    decreases n,
{
    if n <= 0 { 0 } else { digits_value(s, n - 1) * 10 + digit_value(s[n - 1]) }
}

/// What follows an optional leading `+`.
pub open spec fn unsigned_body(s: Seq<char>) -> Seq<char> {
    if s.len() > 0 && s[0] == '+' { s.drop_first() } else { s }
}

/// Every character is a decimal digit.
pub open spec fn all_digits(b: Seq<char>) -> bool {
    forall|i: int| 0 <= i < b.len() ==> is_digit(#[trigger] b[i])
}

/// An unsigned integer as `str::parse` reads it: an optional `+`, then one or more decimal
/// digits, no larger than `max`.
pub open spec fn parse_unsigned_spec(s: Seq<char>, max: int) -> Option<int> {
    let body = unsigned_body(s);
    if body.len() == 0 || !all_digits(body) {
        None
    } else if digits_value(body, body.len() as int) > max {
        None
    } else {
        Some(digits_value(body, body.len() as int))
    }
}

proof fn lemma_digits_grow(s: Seq<char>, n: int, m: int)
    requires
        0 <= n <= m <= s.len(),
        forall|i: int| 0 <= i < s.len() ==> is_digit(#[trigger] s[i]),
    ensures 0 <= digits_value(s, n) <= digits_value(s, m),
    decreases m,
{
    if m > n {
        lemma_digits_grow(s, n, m - 1);
        assert(is_digit(s[m - 1]));
    } else {
        lemma_digits_nonneg(s, n);
    }
}

proof fn lemma_digits_nonneg(s: Seq<char>, n: int)
    requires
        0 <= n <= s.len(),
        forall|i: int| 0 <= i < s.len() ==> is_digit(#[trigger] s[i]),
    ensures 0 <= digits_value(s, n),
    decreases n,
{
    if n > 0 {
        lemma_digits_nonneg(s, n - 1);
        assert(is_digit(s[n - 1]));
    }
}

/// Reads an unsigned decimal integer no larger than `max` (`u16` and `usize` parsing).
pub fn parse_unsigned(s: &str, max: u64) -> (r: Option<u64>)
    ensures
        match parse_unsigned_spec(s@, max as int) {
            Some(v) => r == Some(v as u64),
            None => r is None,
        },
        parse_unsigned_spec(s@, max as int) matches Some(v) ==> 0 <= v <= max,
{
    let cs = crate::text::chars_of(s);
    let start: usize = if cs.len() > 0 && cs[0] == '+' { 1 } else { 0 };
    let ghost body = unsigned_body(s@);
    assert(body =~= cs@.subrange(start as int, cs@.len() as int));
    if start >= cs.len() {
        return None;
    }
    let mut i: usize = start;
    while i < cs.len()
        invariant
            cs@ == s@,
            body == unsigned_body(s@),
            body == cs@.subrange(start as int, cs@.len() as int),
            start <= i <= cs@.len(),
            forall|j: int| 0 <= j < i - start ==> is_digit(#[trigger] body[j]),
        decreases cs@.len() - i,
    {
        if !('0' <= cs[i] && cs[i] <= '9') {
            assert(body[i - start] == cs@[i as int]);
            assert(!is_digit(body[i - start]));
            return None;
        }
        i = i + 1;
    }
    let mut v: u64 = 0;
    let mut k: usize = start;
    while k < cs.len()
        invariant
            cs@ == s@,
            body == unsigned_body(s@),
            body == cs@.subrange(start as int, cs@.len() as int),
            all_digits(body),
            start <= k <= cs@.len(),
            v == digits_value(body, k - start),
            v <= max,
        decreases cs@.len() - k,
    {
        assert(body[k - start] == cs@[k as int]);
        assert(is_digit(body[k - start]));
        let d = (cs[k] as u32 - 48) as u64;
        assert(d == digit_value(body[k - start]));
        assert(digits_value(body, k - start + 1) == v * 10 + d);
        if d > max || v > (max - d) / 10 {
            proof {
                assert(v * 10 + d > max) by (nonlinear_arith)
                    requires d > max || v > (max - d) / 10, v >= 0, d >= 0, max >= 0;
                lemma_digits_grow(body, k - start + 1, body.len() as int);
            }
            return None;
        }
        assert(v * 10 + d <= max) by (nonlinear_arith) requires v <= (max - d) / 10, max >= d;
        v = v * 10 + d;
        k = k + 1;
    }
    proof { lemma_digits_nonneg(body, body.len() as int); }
    Some(v)
}

/// The subcommands that work on a model file.
pub open spec fn is_model_command(c: Seq<char>) -> bool {
    c == "info"@ || c == "tokenize"@ || c == "decide"@ || c == "daemon"@ || c == "serve"@
}

/// Options that stand alone.
pub open spec fn is_flag(o: Seq<char>) -> bool {
    o == "--raw"@ || o == "--json"@
}

/// Options followed by a value.
pub open spec fn takes_value(o: Seq<char>) -> bool {
    ||| o == "--threads"@
    ||| o == "--text"@
    ||| o == "--request"@
    ||| o == "--preset"@
    ||| o == "--state"@
    ||| o == "--state-file"@
    ||| o == "--questions"@
    ||| o == "--questions-file"@
    ||| o == "--device"@
    ||| o == "--host"@
    ||| o == "--port"@
    ||| o == "--model"@
    ||| o == "--default-model"@
}

/// Whether an argument begins with `--`.
pub open spec fn dashed(s: Seq<char>) -> bool {
    s.len() >= 2 && s[0] == '-' && s[1] == '-'
}

/// The first complaint about the options from `a[i]` on, if any.
pub open spec fn option_error(a: Seq<Seq<char>>, i: int) -> Option<Seq<char>>
    decreases a.len() - i,
{
    if i < 0 || i >= a.len() {
        None
    } else if is_flag(a[i]) {
        option_error(a, i + 1)
    } else if takes_value(a[i]) {
        if i + 1 >= a.len() {
            Some("missing value for "@ + a[i])
        } else if (a[i] == "--model"@ || a[i] == "--default-model"@) && a[1] != "serve"@ {
            Some(a[i] + " is only supported by serve"@)
        } else if a[i] == "--device"@ && a[i + 1] != "cpu"@ && a[i + 1] != "auto"@ {
            Some("this port supports CPU inference only"@)
        } else {
            option_error(a, i + 2)
        }
    } else {
        Some("unknown option "@ + a[i])
    }
}

/// The first position, at `i` or later, of the argument `k`.
pub open spec fn first_pos(a: Seq<Seq<char>>, k: Seq<char>, i: int) -> Option<int>
    decreases a.len() - i,
{
    if i < 0 || i >= a.len() {
        None
    } else if a[i] == k {
        Some(i)
    } else {
        first_pos(a, k, i + 1)
    }
}

/// The argument after the first occurrence of `k`, if both exist.
pub open spec fn opt_value(a: Seq<Seq<char>>, k: Seq<char>) -> Option<Seq<char>> {
    match first_pos(a, k, 0) {
        Some(p) => if p + 1 < a.len() { Some(a[p + 1]) } else { None },
        None => None,
    }
}

/// The values of the `--model` options from `a[i]` on, stepping over options as the check does.
pub open spec fn models_from(a: Seq<Seq<char>>, i: int) -> Seq<Seq<char>>
    decreases a.len() + 1 - i,
{
    if i < 0 || i >= a.len() {
        seq![]
    } else {
        let here = if a[i] == "--model"@ && i + 1 < a.len() { seq![a[i + 1]] } else { seq![] };
        here + models_from(a, if is_flag(a[i]) { i + 1 } else { i + 2 })
    }
}

/// A model-file command with its checked options.
#[derive(Debug)]
pub struct Invocation {
    pub command: String,
    pub path: String,
    pub host: String,
    pub port: u16,
    pub threads: usize,
    pub raw: bool,
    /// Every model file to load (`serve` only): the first path, then each `--model`.
    pub models: Vec<String>,
    pub default_model: Option<String>,
}

pub struct InvocationV {
    pub command: Seq<char>,
    pub path: Seq<char>,
    pub host: Seq<char>,
    pub port: u16,
    pub threads: usize,
    pub raw: bool,
    pub models: Seq<Seq<char>>,
    pub default_model: Option<Seq<char>>,
}

/// What the command line asks for.
#[derive(Debug)]
pub enum Command {
    Help,
    ListPresets,
    SelfTest,
    Run(Invocation),
}

pub enum CommandV {
    Help,
    ListPresets,
    SelfTest,
    Run(InvocationV),
}

impl View for Invocation {
    type V = InvocationV;

    open spec fn view(&self) -> InvocationV {
        InvocationV {
            command: self.command@,
            path: self.path@,
            host: self.host@,
            port: self.port,
            threads: self.threads,
            raw: self.raw,
            models: views(self.models@),
            default_model: match self.default_model {
                Some(d) => Some(d@),
                None => None,
            },
        }
    }
}

impl View for Command {
    type V = CommandV;

    open spec fn view(&self) -> CommandV {
        match self {
            Command::Help => CommandV::Help,
            Command::ListPresets => CommandV::ListPresets,
            Command::SelfTest => CommandV::SelfTest,
            Command::Run(i) => CommandV::Run(i@),
        }
    }
}

/// What the arguments `a` (program name first) ask for, or why they are refused.
pub open spec fn parse_args_spec(a: Seq<Seq<char>>) -> Result<CommandV, Seq<char>> {
    if a.len() < 2 || a[1] == "help"@ || a[1] == "--help"@ {
        Ok(CommandV::Help)
    } else if a[1] == "list-presets"@ {
        Ok(CommandV::ListPresets)
    } else if a[1] == "self-test"@ {
        Ok(CommandV::SelfTest)
    } else if !is_model_command(a[1]) {
        Err("unknown command; run laya help"@)
    } else if a.len() < 3 || dashed(a[2]) {
        Err("missing model path"@)
    } else if option_error(a, 3) is Some {
        Err(option_error(a, 3)->0)
    } else {
        let port = match opt_value(a, "--port"@) {
            Some(v) => parse_unsigned_spec(v, 65535),
            None => Some(8080),
        };
        let threads = match opt_value(a, "--threads"@) {
            Some(v) => parse_unsigned_spec(v, usize::MAX as int),
            None => Some(4),
        };
        if port is None {
            Err("invalid --port"@)
        } else if port->0 == 0 {
            Err("--port must be 1..65535"@)
        } else if threads is None {
            Err("invalid --threads"@)
        } else if threads->0 == 0 || threads->0 > 64 {
            Err("--threads must be 1..64"@)
        } else {
            Ok(CommandV::Run(InvocationV {
                command: a[1],
                path: a[2],
                host: match opt_value(a, "--host"@) {
                    Some(h) => h,
                    None => "127.0.0.1"@,
                },
                port: port->0 as u16,
                threads: threads->0 as usize,
                raw: first_pos(a, "--raw"@, 0) is Some,
                models: if a[1] == "serve"@ { seq![a[2]] + models_from(a, 3) } else { seq![] },
                default_model: opt_value(a, "--default-model"@),
            }))
        }
    }
}

fn is_flag_exec(s: &str) -> (r: bool)
    ensures r == is_flag(s@),
{
    str_eq(s, "--raw") || str_eq(s, "--json")
}

fn takes_value_exec(s: &str) -> (r: bool)
    ensures r == takes_value(s@),
{
    str_eq(s, "--threads") || str_eq(s, "--text") || str_eq(s, "--request") || str_eq(s, "--preset")
        || str_eq(s, "--state") || str_eq(s, "--state-file") || str_eq(s, "--questions")
        || str_eq(s, "--questions-file") || str_eq(s, "--device") || str_eq(s, "--host")
        || str_eq(s, "--port") || str_eq(s, "--model") || str_eq(s, "--default-model")
}

fn is_model_command_exec(s: &str) -> (r: bool)
    ensures r == is_model_command(s@),
{
    str_eq(s, "info") || str_eq(s, "tokenize") || str_eq(s, "decide") || str_eq(s, "daemon")
        || str_eq(s, "serve")
}

fn dashed_exec(s: &str) -> (r: bool)
    ensures r == dashed(s@),
{
    let cs = chars_of(s);
    cs.len() >= 2 && cs[0] == '-' && cs[1] == '-'
}

proof fn lemma_first_pos_range(a: Seq<Seq<char>>, k: Seq<char>, i: int)
    requires 0 <= i,
    ensures first_pos(a, k, i) matches Some(p) ==> i <= p < a.len() && a[p] == k,
    decreases a.len() - i,
{
    if i < a.len() && a[i] != k {
        lemma_first_pos_range(a, k, i + 1);
    }
}

/// The first position of the argument `key`.
fn position(a: &[String], key: &str) -> (r: Option<usize>)
    ensures
        r matches Some(p) ==> p < a@.len(),
        match first_pos(views(a@), key@, 0) {
            Some(p) => r == Some(p as usize),
            None => r is None,
        },
{
    let ghost av = views(a@);
    let n = a.len();
    let mut i: usize = 0;
    proof { lemma_first_pos_range(av, key@, 0); }
    while i < n
        invariant
            n == a@.len(),
            av == views(a@),
            i <= n,
            first_pos(av, key@, 0) == first_pos(av, key@, i as int),
        decreases n - i,
    {
        if str_eq(a[i].as_str(), key) {
            return Some(i);
        }
        i = i + 1;
    }
    None
}

/// The argument after the first occurrence of `key`, if both exist.
pub fn opt<'a>(a: &'a [String], key: &str) -> (r: Option<&'a String>)
    ensures
        r is Some <==> opt_value(views(a@), key@) is Some,
        r is Some ==> r->0@ == opt_value(views(a@), key@)->0,
{
    let n = a.len();
    assert(views(a@).len() == n);
    proof { lemma_first_pos_range(views(a@), key@, 0); }
    match position(a, key) {
        Some(p) => {
            if p + 1 < n {
                assert(views(a@)[p + 1] == a@[p + 1]@);
                Some(&a[p + 1])
            } else {
                None
            }
        },
        None => None,
    }
}

/// The first complaint about the options from the fourth argument on.
fn check_options(a: &[String]) -> (r: Option<String>)
    requires a@.len() >= 3,
    ensures
        match option_error(views(a@), 3) {
            Some(e) => r matches Some(x) && x@ == e,
            None => r is None,
        },
{
    let ghost av = views(a@);
    let n = a.len();
    let serve = str_eq(a[1].as_str(), "serve");
    let mut i: usize = 3;
    while i < n
        invariant
            n == a@.len(),
            n >= 3,
            av == views(a@),
            serve == (av[1] == "serve"@),
            3 <= i <= n,
            option_error(av, 3) == option_error(av, i as int),
        decreases n - i,
    {
        let o = a[i].as_str();
        assert(o@ == av[i as int]);
        if is_flag_exec(o) {
            i = i + 1;
        } else if takes_value_exec(o) {
            if i + 1 >= n {
                let mut m = owned("missing value for ");
                m.append(o);
                return Some(m);
            }
            let model_only = str_eq(o, "--model") || str_eq(o, "--default-model");
            if model_only && !serve {
                let mut m = owned(o);
                m.append(" is only supported by serve");
                return Some(m);
            }
            let v = a[i + 1].as_str();
            assert(v@ == av[i + 1]);
            if str_eq(o, "--device") && !str_eq(v, "cpu") && !str_eq(v, "auto") {
                return Some(owned("this port supports CPU inference only"));
            }
            i = i + 2;
        } else {
            let mut m = owned("unknown option ");
            m.append(o);
            return Some(m);
        }
    }
    None
}

/// The model files that `serve` loads: the first path, then the value of each `--model`.
fn serve_models(a: &[String]) -> (r: Vec<String>)
    requires
        a@.len() >= 3,
    ensures
        views(r@) == seq![views(a@)[2]] + models_from(views(a@), 3),
{
    let ghost av = views(a@);
    let n = a.len();
    let mut r: Vec<String> = Vec::new();
    r.push(a[2].clone());
    let mut i: usize = 3;
    assert(views(r@) =~= seq![av[2]]);
    while i < n
        invariant
            n == a@.len(),
            av == views(a@),
            3 <= i,
            seq![av[2]] + models_from(av, 3) == views(r@) + models_from(av, i as int),
        decreases n - i,
    {
        let o = a[i].as_str();
        assert(o@ == av[i as int]);
        let ghost before = views(r@);
        let ghost next: int = if is_flag(av[i as int]) { i + 1 } else { i + 2 };
        if str_eq(o, "--model") && i + 1 < n {
            r.push(a[i + 1].clone());
            assert(views(r@) =~= before.push(av[i + 1]));
            assert(views(r@) + models_from(av, next) =~= before + models_from(av, i as int));
        } else {
            assert(before + models_from(av, next) =~= before + models_from(av, i as int));
        }
        if is_flag_exec(o) {
            i = i + 1;
        } else if i + 1 < n {
            i = i + 2;
        } else {
            i = n;
            assert(models_from(av, next) =~= seq![]);
            assert(models_from(av, n as int) =~= seq![]);
        }
    }
    assert(models_from(av, i as int) =~= seq![]);
    assert(views(r@) + seq![] =~= views(r@));
    r
}

/// Reads the command line: which command runs, on which model files, with which options.
pub fn parse_args(a: &[String]) -> (r: Result<Command, String>)
    ensures
        match parse_args_spec(views(a@)) {
            Ok(c) => r matches Ok(x) && x@ == c,
            Err(e) => r matches Err(x) && x@ == e,
        },
{
    let ghost av = views(a@);
    let n = a.len();
    if n < 2 || str_eq(a[1].as_str(), "help") || str_eq(a[1].as_str(), "--help") {
        return Ok(Command::Help);
    }
    if str_eq(a[1].as_str(), "list-presets") {
        return Ok(Command::ListPresets);
    }
    if str_eq(a[1].as_str(), "self-test") {
        return Ok(Command::SelfTest);
    }
    if !is_model_command_exec(a[1].as_str()) {
        return Err(owned("unknown command; run laya help"));
    }
    if n < 3 || dashed_exec(a[2].as_str()) {
        return Err(owned("missing model path"));
    }
    if let Some(e) = check_options(a) {
        return Err(e);
    }
    let port: u16 = match opt(a, "--port") {
        Some(v) => match parse_unsigned(v.as_str(), 65535) {
            Some(p) => p as u16,
            None => return Err(owned("invalid --port")),
        },
        None => 8080,
    };
    if port == 0 {
        return Err(owned("--port must be 1..65535"));
    }
    let threads: usize = match opt(a, "--threads") {
        Some(v) => match parse_unsigned(v.as_str(), usize::MAX as u64) {
            Some(t) => t as usize,
            None => return Err(owned("invalid --threads")),
        },
        None => 4,
    };
    if threads == 0 || threads > 64 {
        return Err(owned("--threads must be 1..64"));
    }
    let host = match opt(a, "--host") {
        Some(h) => h.clone(),
        None => owned("127.0.0.1"),
    };
    let raw = position(a, "--raw").is_some();
    let serve = str_eq(a[1].as_str(), "serve");
    let models = if serve { serve_models(a) } else { Vec::new() };
    let default_model = match opt(a, "--default-model") {
        Some(d) => Some(d.clone()),
        None => None,
    };
    let inv = Invocation {
        command: a[1].clone(),
        path: a[2].clone(),
        host,
        port,
        threads,
        raw,
        models,
        default_model,
    };
    proof {
        if !serve {
            assert(views(inv.models@) =~= seq![]);
        }
    }
    Ok(Command::Run(inv))
}

} // verus!
