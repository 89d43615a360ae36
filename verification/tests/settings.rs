use rustgate::addr::{parse_socket, SocketAddr};
use rustgate::cli::{Cli, CliError, SettingArgs};
use rustgate::settings::{api_address, read_lines, resolve, Environment, Settings, StartError};

fn args(list: &[&str]) -> Vec<String> {
    list.iter().map(|s| s.to_string()).collect()
}

fn no_args() -> SettingArgs {
    SettingArgs {
        server: None,
        token: None,
        api_addr: None,
        listen_addr: None,
        tls_cert: None,
        tls_key: None,
        trusted_proxies: None,
    }
}

fn no_env() -> Environment {
    Environment {
        backend: None,
        token: None,
        api: None,
        listen: None,
        trusted: None,
        tls_cert: None,
        tls_key: None,
    }
}

fn full() -> Settings {
    Settings {
        backend: "http://127.0.0.1:8080".into(),
        token: "to\nken\\".into(),
        api_addr: "127.0.0.1:9001".into(),
        listen_addr: "[::]:9000".into(),
        tls_cert: "".into(),
        tls_key: "".into(),
        trusted_proxies: "10.0.0.0/8".into(),
    }
}

fn fields(s: &Settings) -> [&str; 7] {
    [
        &s.backend,
        &s.token,
        &s.api_addr,
        &s.listen_addr,
        &s.tls_cert,
        &s.tls_key,
        &s.trusted_proxies,
    ]
}

#[test]
fn settings_escape_unescape_roundtrip() {
    let cases = [
        "plain-token-123",
        "a\\b",
        "line1\nline2",
        "cr\rlf",
        "mix\\n\\r",
    ];
    for c in cases {
        let esc = Settings::escape(c);
        assert!(!esc.contains('\n'), "{esc:?}");
        assert_eq!(Settings::unescape(&esc), c, "{c:?}");
    }
}

#[test]
fn escaping_in_detail() {
    assert_eq!(Settings::escape("a\\\n\r"), "a\\\\\\n\\r");
    assert_eq!(Settings::unescape("a\\x\\"), "a\\x\\");
    assert_eq!(Settings::unescape("\\\\n"), "\\n");
}

#[test]
fn settings_are_read_back() {
    let s = full();
    let text = s.to_text();
    assert_eq!(
        text,
        "http://127.0.0.1:8080\nto\\nken\\\\\n127.0.0.1:9001\n[::]:9000\n\n\n10.0.0.0/8\n"
    );
    assert_eq!(fields(&Settings::from_text(&text).unwrap()), fields(&s));
}

#[test]
fn shorter_files_are_read_too() {
    let s = Settings::from_text("a\r\nb\nc\nd").unwrap();
    assert_eq!(fields(&s), ["a", "b", "c", "d", "", "", ""]);
    assert_eq!(Settings::from_text("").unwrap_err(), "settings: 缺少 backend 行");
    assert_eq!(Settings::from_text("a\n").unwrap_err(), "settings: 缺少 token 行");
    assert_eq!(Settings::from_text("a\nb").unwrap_err(), "settings: 缺少 api_addr 行");
    assert_eq!(Settings::from_text("a\n\nb\n").unwrap_err(), "settings: 缺少 listen_addr 行");
}

#[test]
fn lines_end_as_they_do_in_std() {
    for s in ["", "\n", "a", "a\n", "a\r\n", "a\r", "a\n\nb\r\r\n\r", "\r\n\r\n"] {
        let std: Vec<String> = s.lines().map(|l| l.to_string()).collect();
        assert_eq!(read_lines(s), std, "{s:?}");
    }
}

#[test]
fn merge_changes_what_is_given() {
    let mut o = no_args();
    assert_eq!(fields(&full().merge(&o)), fields(&full()));
    o.server = Some("https://b".into());
    o.api_addr = Some(SocketAddr::V4 { ip: 0x0102_0304, port: 5 });
    let m = full().merge(&o);
    assert_eq!(m.backend, "https://b");
    assert_eq!(m.api_addr, "1.2.3.4:5");
    assert_eq!(m.token, full().token);
    assert_eq!(parse_socket(&m.api_addr), o.api_addr);
}

#[test]
fn missing_items_are_named() {
    assert_eq!(
        Settings::defaults().missing_required(),
        vec![
            "RUSTGATE_BACKEND (-s)",
            "RUSTGATE_API_TOKEN (-t)",
            "RUSTGATE_API (-a)",
            "RUSTGATE_LISTEN (-l)"
        ]
    );
    assert!(full().missing_required().is_empty());
}

#[test]
fn backend_needs_a_scheme() {
    let mut s = full();
    assert!(s.backend_is_usable());
    s.backend = "https://x".into();
    assert!(s.backend_is_usable());
    s.backend = "127.0.0.1:80".into();
    assert!(!s.backend_is_usable());
    s.backend = "".into();
    assert!(s.backend_is_usable());
}

#[test]
fn summary_hides_the_token() {
    let mut s = full();
    s.token = "s3cret".into();
    let lines = s.summary();
    assert_eq!(lines.len(), 7);
    assert!(!lines.iter().any(|l| l.contains("s3cret")));
    assert_eq!(lines[0], "  backend     = http://127.0.0.1:8080");
    assert_eq!(lines[4], "  tls_cert    = (未设置)");
    assert_eq!(lines[6], "  trusted_proxies = 10.0.0.0/8");
}

#[test]
fn start_needs_everything() {
    let r = resolve(&no_env(), &Settings::defaults());
    assert!(matches!(r, Err(StartError::Missing(m)) if m.len() == 4));
    let mut env = no_env();
    env.backend = Some("".into());
    let r = resolve(&env, &Settings::defaults());
    assert!(matches!(r, Err(StartError::Missing(m)) if m.len() == 3));
}

#[test]
fn start_takes_the_environment_first() {
    let mut env = no_env();
    env.listen = Some("0.0.0.0:1".into());
    env.trusted = Some("".into());
    let start = resolve(&env, &full()).unwrap();
    assert_eq!(start.listen, SocketAddr::V4 { ip: 0, port: 1 });
    assert_eq!(start.backend, "http://127.0.0.1:8080");
    assert_eq!(start.trusted, "");
    assert_eq!(start.tls, None);
    assert_eq!(api_address(&env, &full()), Ok(parse_socket("127.0.0.1:9001").unwrap()));
    env.api = Some("nowhere".into());
    assert_eq!(api_address(&env, &full()), Err("nowhere".to_string()));
}

#[test]
fn start_refuses_bad_addresses_and_half_tls() {
    let mut env = no_env();
    env.listen = Some("bad".into());
    assert!(matches!(resolve(&env, &full()), Err(StartError::BadListenVariable(v)) if v == "bad"));
    let mut s = full();
    s.listen_addr = "worse".into();
    assert!(matches!(resolve(&no_env(), &s), Err(StartError::BadListenSetting(v)) if v == "worse"));
    let mut s = full();
    s.tls_cert = "c.pem".into();
    assert!(matches!(resolve(&no_env(), &s), Err(StartError::HalfTls)));
    s.tls_key = "k.pem".into();
    assert_eq!(
        resolve(&no_env(), &s).unwrap().tls,
        Some(("c.pem".to_string(), "k.pem".to_string()))
    );
}

#[test]
fn commands_are_told_apart() {
    assert!(matches!(Cli::parse(&args(&[])), Ok(Cli::Waf)));
    assert!(matches!(Cli::parse(&args(&["waf"])), Ok(Cli::Waf)));
    assert!(matches!(Cli::parse(&args(&["waf", "x", "-h"])), Ok(Cli::Help)));
    assert!(matches!(Cli::parse(&args(&["--setting", "-s", "--help"])), Ok(Cli::Help)));
    assert!(
        matches!(Cli::parse(&args(&["waf", "a", "b"])), Err(CliError::ExtraArguments(s)) if s == "a b")
    );
    assert!(
        matches!(Cli::parse(&args(&["x", "y"])), Err(CliError::UnknownArguments(s)) if s == "x y")
    );
}

#[test]
fn options_are_read() {
    let r = Cli::parse(&args(&[
        "--settings", "-s", "http://b", "--token", "t", "-a", "127.0.0.1:1", "-l", "[::]:2", "-c",
        "cert", "-k", "key", "--trusted-proxies", "::1", "-t", "waf",
    ]));
    match r {
        Ok(Cli::Setting(s)) => {
            assert_eq!(s.server.as_deref(), Some("http://b"));
            assert_eq!(s.token.as_deref(), Some("waf"));
            assert_eq!(s.api_addr, parse_socket("127.0.0.1:1"));
            assert_eq!(s.listen_addr, parse_socket("[::]:2"));
            assert_eq!(s.tls_cert.as_deref(), Some("cert"));
            assert_eq!(s.tls_key.as_deref(), Some("key"));
            assert_eq!(s.trusted_proxies.as_deref(), Some("::1"));
        }
        other => panic!("{other:?}"),
    }
}

#[test]
fn faulty_options_are_told() {
    assert!(
        matches!(Cli::parse(&args(&["--setting", "-s"])), Err(CliError::MissingValue(s)) if s == "-s")
    );
    assert!(
        matches!(Cli::parse(&args(&["--setting", "-x"])), Err(CliError::UnknownOption(s)) if s == "-x")
    );
    assert!(
        matches!(Cli::parse(&args(&["--setting", "-a", "b"])), Err(CliError::BadApiAddress(s)) if s == "b")
    );
    assert!(
        matches!(Cli::parse(&args(&["--setting", "-l", "b"])), Err(CliError::BadListenAddress(s)) if s == "b")
    );
}

#[test]
fn messages_name_the_program() {
    assert_eq!(
        CliError::MissingValue("-s".into()).message("rustgate"),
        "错误: 参数 `-s` 缺少值（查看帮助: rustgate --help）"
    );
    assert_eq!(
        CliError::BadListenAddress("b".into()).message("rustgate"),
        "错误: 无效 WAF 监听地址 `b`: invalid socket address syntax"
    );
    assert_eq!(
        CliError::ExtraArguments("a".into()).message("rg"),
        "错误: `waf` 不接受额外参数 `a`（监听地址请用 `--setting -l <addr>` 配置，查看帮助: rg --help）"
    );
}
