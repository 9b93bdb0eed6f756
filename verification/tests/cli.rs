use laya::cli::{opt, parse_args, parse_unsigned, Command};

fn args(v: &[&str]) -> Vec<String> {
    v.iter().map(|s| s.to_string()).collect()
}

fn err(v: &[&str]) -> String {
    match parse_args(&args(v)) {
        Err(e) => e,
        Ok(_) => panic!("expected an error"),
    }
}

#[test]
fn parse_unsigned_reads_decimal() {
    assert_eq!(parse_unsigned("8080", 65535), Some(8080));
    assert_eq!(parse_unsigned("+12", 65535), Some(12));
    assert_eq!(parse_unsigned("0", 65535), Some(0));
    assert_eq!(parse_unsigned("65535", 65535), Some(65535));
    assert_eq!(parse_unsigned("65536", 65535), None);
    assert_eq!(parse_unsigned("", 65535), None);
    assert_eq!(parse_unsigned("+", 65535), None);
    assert_eq!(parse_unsigned("-1", 65535), None);
    assert_eq!(parse_unsigned("12a", 65535), None);
    assert_eq!(parse_unsigned(" 1", 65535), None);
    assert_eq!(parse_unsigned("18446744073709551615", u64::MAX), Some(u64::MAX));
    assert_eq!(parse_unsigned("18446744073709551616", u64::MAX), None);
}

#[test]
fn help_commands() {
    assert!(matches!(parse_args(&args(&["laya"])), Ok(Command::Help)));
    assert!(matches!(parse_args(&args(&["laya", "help"])), Ok(Command::Help)));
    assert!(matches!(parse_args(&args(&["laya", "--help", "x"])), Ok(Command::Help)));
    assert!(matches!(parse_args(&args(&["laya", "list-presets"])), Ok(Command::ListPresets)));
    assert!(matches!(parse_args(&args(&["laya", "self-test"])), Ok(Command::SelfTest)));
}

#[test]
fn command_errors() {
    assert_eq!(err(&["laya", "frobnicate"]), "unknown command; run laya help");
    assert_eq!(err(&["laya", "info"]), "missing model path");
    assert_eq!(err(&["laya", "info", "--raw"]), "missing model path");
    assert_eq!(err(&["laya", "info", "m.gguf", "--threads"]), "missing value for --threads");
    assert_eq!(err(&["laya", "decide", "m.gguf", "--model", "b.gguf"]), "--model is only supported by serve");
    assert_eq!(err(&["laya", "info", "m.gguf", "--default-model", "x"]), "--default-model is only supported by serve");
    assert_eq!(err(&["laya", "info", "m.gguf", "--device", "cuda"]), "this port supports CPU inference only");
    assert_eq!(err(&["laya", "info", "m.gguf", "--verbose"]), "unknown option --verbose");
    assert_eq!(err(&["laya", "serve", "m.gguf", "--port", "http"]), "invalid --port");
    assert_eq!(err(&["laya", "serve", "m.gguf", "--port", "70000"]), "invalid --port");
    assert_eq!(err(&["laya", "serve", "m.gguf", "--port", "0"]), "--port must be 1..65535");
    assert_eq!(err(&["laya", "info", "m.gguf", "--threads", "x"]), "invalid --threads");
    assert_eq!(err(&["laya", "info", "m.gguf", "--threads", "0"]), "--threads must be 1..64");
    assert_eq!(err(&["laya", "info", "m.gguf", "--threads", "65"]), "--threads must be 1..64");
}

#[test]
fn defaults_for_model_commands() {
    match parse_args(&args(&["laya", "decide", "m.gguf", "--device", "cpu", "--raw", "--text", "hi"])) {
        Ok(Command::Run(i)) => {
            assert_eq!(i.command, "decide");
            assert_eq!(i.path, "m.gguf");
            assert_eq!(i.host, "127.0.0.1");
            assert_eq!(i.port, 8080);
            assert_eq!(i.threads, 4);
            assert!(i.raw);
            assert!(i.models.is_empty());
            assert_eq!(i.default_model, None);
        }
        _ => panic!("expected a model command"),
    }
}

#[test]
fn serve_collects_models() {
    let a = args(&["laya", "serve", "a.gguf", "--json", "--model", "b.gguf", "--port", "9000", "--model", "c.gguf",
        "--default-model", "openthai", "--host", "0.0.0.0", "--threads", "8"]);
    match parse_args(&a) {
        Ok(Command::Run(i)) => {
            assert_eq!(i.models, vec!["a.gguf".to_string(), "b.gguf".to_string(), "c.gguf".to_string()]);
            assert_eq!(i.port, 9000);
            assert_eq!(i.host, "0.0.0.0");
            assert_eq!(i.threads, 8);
            assert!(!i.raw);
            assert_eq!(i.default_model, Some("openthai".to_string()));
        }
        _ => panic!("expected serve"),
    }
}

#[test]
fn opt_finds_the_first_occurrence() {
    let a = args(&["laya", "decide", "m", "--text", "one", "--text", "two"]);
    assert_eq!(opt(&a, "--text"), Some(&"one".to_string()));
    assert_eq!(opt(&a, "--preset"), None);
    let b = args(&["laya", "decide", "m", "--text"]);
    assert_eq!(opt(&b, "--text"), None);
}
