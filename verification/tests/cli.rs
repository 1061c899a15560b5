use certik::cli::{bind_addresses, exit_code, parse_args, parse_port, Cli, DEFAULT_PORT, USAGE};

fn args(list: &[&str]) -> Vec<String> {
    list.iter().map(|s| s.to_string()).collect()
}

fn parse(list: &[&str]) -> Result<Cli, String> {
    parse_args(&args(list), "1.2.3")
}

#[test]
fn defaults() {
    let cli = parse(&[]).unwrap();
    assert_eq!(cli.bind_ip, "0.0.0.0");
    assert_eq!(cli.api_port, DEFAULT_PORT);
    assert_eq!(cli.api_port, 24489);
    assert!(cli.tls_cert.is_none() && cli.tls_key.is_none());
    assert!(!cli.no_api);
    assert!(cli.load_certs.is_empty() && cli.load_keys.is_empty());
}

#[test]
fn all_options() {
    let cli = parse(&[
        "--no-api", "--api-bind", "::1", "--api-port", "+08080", "--tls-cert", "c", "--tls-key", "k",
        "--cert", "a", "--cert", "b", "--key", "d",
    ])
    .unwrap();
    assert_eq!(cli.bind_ip, "::1");
    assert_eq!(cli.api_port, 8080);
    assert_eq!(cli.tls_cert.as_deref(), Some("c"));
    assert_eq!(cli.tls_key.as_deref(), Some("k"));
    assert!(cli.no_api);
    assert_eq!(cli.load_certs, ["a", "b"]);
    assert_eq!(cli.load_keys, ["d"]);
    assert_eq!(parse(&["-H", "10.0.0.1"]).unwrap().bind_ip, "10.0.0.1");
}

#[test]
fn later_options_win() {
    assert_eq!(parse(&["--api-port", "1", "--api-port", "2"]).unwrap().api_port, 2);
}

#[test]
fn help_and_version_are_no_failures() {
    for flag in ["-h", "--help"] {
        let message = parse(&["--no-api", flag, "--bogus"]).unwrap_err();
        assert_eq!(message, USAGE);
        assert_eq!(exit_code(&message), 0);
    }
    let message = parse(&["--version"]).unwrap_err();
    assert_eq!(message, "certik 1.2.3");
    assert_eq!(exit_code(&message), 0);
}

#[test]
fn the_help_text_names_the_defaults() {
    assert!(USAGE.starts_with("certik - certificate manager\n\nUSAGE:\n    certik [OPTIONS]\n"));
    assert!(USAGE.contains("(default: 24489)"));
    assert!(USAGE.contains("(default: 0.0.0.0)"));
}

#[test]
fn missing_values() {
    for name in ["--api-bind", "--api-port", "--tls-cert", "--tls-key", "--cert", "--key"] {
        assert_eq!(parse(&[name]).unwrap_err(), format!("missing value for {name}"));
    }
    assert_eq!(parse(&["-H"]).unwrap_err(), "missing value for --api-bind");
    assert_eq!(exit_code("missing value for --key"), 2);
}

#[test]
fn invalid_ports() {
    for bad in ["", "+", "-1", "65536", "70000000000000000000000", "8a", " 80", "++1"] {
        assert_eq!(parse(&["--api-port", bad]).unwrap_err(), "invalid value for --api-port");
        assert!(bad.parse::<u16>().is_err());
    }
    for good in ["0", "65535", "+7", "000443"] {
        assert_eq!(parse_port(good), good.parse::<u16>().ok());
    }
}

#[test]
fn ports_read_back() {
    for port in 0..=u16::MAX {
        assert_eq!(parse_port(&port.to_string()), Some(port));
    }
}

#[test]
fn unknown_arguments() {
    let message = parse(&["--bogus"]).unwrap_err();
    assert_eq!(message, format!("unknown argument: --bogus\n\n{USAGE}"));
    assert_eq!(exit_code(&message), 2);
}

#[test]
fn addresses_to_listen_at() {
    let cli = parse(&["-H", "::", "--api-port", "99"]).unwrap();
    let (wanted, local) = bind_addresses(&cli);
    assert_eq!(wanted, ":::99");
    assert_eq!(local, "127.0.0.1:99");
}
