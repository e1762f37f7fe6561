use tape::cli::RewriteMode;
use tape::config::{
    default_config_path, normalize_hosts, parse_rewrite_mode, record_config, replay_config,
    resolve_config_path, ConfigError, RecordFilter, RecordFilterSection, ReplaySection,
    CONFIG_FILE_NAME, DEFAULT_ABSOLUTE_BASE, DEFAULT_PORT,
};
use tape::rewrite::RewriteRule;

fn strings(list: &[&str]) -> Vec<String> {
    list.iter().map(|s| s.to_string()).collect()
}

#[test]
fn normalize_hosts_strips_scheme_and_case() {
    assert_eq!(
        normalize_hosts(vec![
            " HTTP://10.1.2.3:8080 ".to_string(),
            "api.Example.com".to_string(),
            "".to_string(),
        ]),
        vec!["10.1.2.3:8080".to_string(), "api.example.com".to_string()]
    );
}

#[test]
fn normalize_hosts_strips_repeated_schemes() {
    assert_eq!(
        normalize_hosts(strings(&["http://http://a.com", "https://HTTPS://b.com", "http://https://c", "   "])),
        strings(&["a.com", "b.com", "c"])
    );
}

#[test]
fn filter_matches_host_any_port_and_exact_port() {
    let f = RecordFilter::with_rules(
        vec!["10.1.2.3".to_string(), "api.company.com:8080".to_string()],
        vec![],
    )
    .unwrap();
    assert!(f.matches("10.1.2.3:8080"));
    assert!(f.matches("10.1.2.3:9090"));
    assert!(f.matches("api.company.com:8080"));
    assert!(!f.matches("api.company.com:9090"));
    assert!(!f.matches("10.1.2.4:8080"));
}

#[test]
fn filter_matches_regex_on_authority() {
    let f = RecordFilter::with_rules(
        vec![],
        vec![
            r"^10\.1\.2\.(3|4):\d+$".to_string(),
            r"\.company\.com(:\d+)?$".to_string(),
        ],
    )
    .unwrap();
    assert!(f.matches("10.1.2.3:8080"));
    assert!(f.matches("10.1.2.4:9090"));
    assert!(!f.matches("10.1.2.5:8080"));
    assert!(f.matches("api.company.com:80"));
    assert!(f.matches("sub.Company.COM:443"));
    assert!(!f.matches("company.com.evil.net:80"));
}

#[test]
fn filter_all_matches_everything() {
    let f = RecordFilter::all();
    assert!(f.is_all());
    assert!(f.matches("anything:1"));
}

#[test]
fn filter_takes_patterns_in_any_case() {
    let f = RecordFilter::with_rules(vec![], strings(&["^API\\."])).unwrap();
    assert!(f.matches("api.x.com:1"));
    assert!(f.matches("Api.x.com:1"));
    assert!(!f.matches("x.api.com:1"));
}

#[test]
fn filter_without_a_section_is_all() {
    assert!(RecordFilter::from_section(None).unwrap().is_all());
    let empty = RecordFilterSection { include_hosts: vec![], include_hosts_regex: vec![] };
    assert!(RecordFilter::from_section(Some(empty)).unwrap().is_all());
}

#[test]
fn filter_reads_hosts_and_regexes_of_a_section() {
    let section = RecordFilterSection {
        include_hosts: strings(&["10.1.2.3:8080", "api.company.com"]),
        include_hosts_regex: strings(&[r"^10\.1\.2\.(3|4):\d+$"]),
    };
    let f = RecordFilter::from_section(Some(section)).unwrap();
    assert!(f.matches("10.1.2.3:8080"));
    assert!(f.matches("api.company.com:80"));
    assert!(f.matches("10.1.2.4:1234"));
    assert!(!f.matches("10.1.2.9:8080"));
    assert!(!f.matches("other.com:80"));
}

#[test]
fn filter_is_refused_with_the_first_invalid_pattern() {
    let r = RecordFilter::with_rules(vec![], strings(&["^ok$", "(unclosed", "[also"]));
    match r {
        Err(ConfigError::InvalidRegex { pattern }) => assert_eq!(pattern, "(unclosed"),
        _ => panic!("an invalid pattern must be refused"),
    }
}

#[test]
fn config_errors_have_messages() {
    let e = ConfigError::InvalidRegex { pattern: "(".to_string() };
    assert_eq!(e.message(), "配置中的正则非法: (");
    let e = ConfigError::InvalidRewrite { value: "foo".to_string() };
    assert_eq!(
        e.message(),
        "配置文件 [replay] 的 rewrite 取值非法: foo（可选 relative / absolute / none）"
    );
    let e = ConfigError::MissingDir { dir: "./x".to_string() };
    assert_eq!(
        e.message(),
        "数据目录不存在: ./x（请先运行 tape record 录制，或用 --dir 指定已录制目录）"
    );
}

#[test]
fn resolve_config_path_prefers_explicit() {
    let dir = "/some/data-dir";
    let explicit = "/custom/tape.toml".to_string();
    assert_eq!(
        resolve_config_path(Some(explicit.clone()), dir, false),
        Some(explicit.clone())
    );
    assert_eq!(
        resolve_config_path(Some(explicit.clone()), dir, true),
        Some(explicit)
    );
}

#[test]
fn config_path_defaults_to_the_data_directory() {
    assert_eq!(CONFIG_FILE_NAME, "tape-config.toml");
    assert_eq!(default_config_path("/d"), "/d/tape-config.toml");
    assert_eq!(
        resolve_config_path(None, "/d", true),
        Some("/d/tape-config.toml".to_string())
    );
    assert_eq!(resolve_config_path(None, "/d", false), None);
}

#[test]
fn record_config_carries_its_settings() {
    let section = RecordFilterSection {
        include_hosts: strings(&["10.1.2.3"]),
        include_hosts_regex: vec![],
    };
    let cfg = match record_config(
        8888,
        "/d".to_string(),
        true,
        Some("/d/tape-config.toml".to_string()),
        Some(section),
    ) {
        Ok(c) => c,
        Err(e) => panic!("{}", e.message()),
    };
    assert_eq!(cfg.port, 8888);
    assert_eq!(cfg.dir, "/d");
    assert!(cfg.rewrite_on_record);
    assert!(cfg.filter.matches("10.1.2.3:80"));
    assert!(!cfg.filter.matches("other.com:80"));
    assert_eq!(cfg.config_path, Some("/d/tape-config.toml".to_string()));
    let bad = RecordFilterSection {
        include_hosts: vec![],
        include_hosts_regex: strings(&["("]),
    };
    assert!(record_config(8888, "/d".to_string(), false, None, Some(bad)).is_err());
}

#[test]
fn replay_config_takes_the_section() {
    let section = ReplaySection {
        port: Some(9999),
        rewrite: Some(" Absolute ".to_string()),
        absolute_base: Some("http://10.0.0.1:9000/".to_string()),
    };
    let cfg = match replay_config(None, "/d".to_string(), true, None, None, None, Some(section)) {
        Ok(c) => c,
        Err(e) => panic!("{}", e.message()),
    };
    assert_eq!(cfg.port, 9999);
    match cfg.rewrite {
        RewriteRule::Absolute { base } => assert_eq!(base, "http://10.0.0.1:9000/"),
        _ => panic!("expected absolute rewriting"),
    }
}

#[test]
fn replay_config_prefers_the_command_line() {
    let section = ReplaySection {
        port: Some(9999),
        rewrite: Some("nonsense".to_string()),
        absolute_base: None,
    };
    let cfg = match replay_config(
        Some(1234),
        "/d".to_string(),
        true,
        Some(RewriteMode::Absolute),
        Some("http://cli-base/".to_string()),
        Some("/c.toml".to_string()),
        Some(section),
    ) {
        Ok(c) => c,
        Err(e) => panic!("{}", e.message()),
    };
    assert_eq!(cfg.port, 1234);
    assert_eq!(cfg.config_path, Some("/c.toml".to_string()));
    match cfg.rewrite {
        RewriteRule::Absolute { base } => assert_eq!(base, "http://cli-base/"),
        _ => panic!("expected absolute rewriting"),
    }
}

#[test]
fn replay_config_has_defaults() {
    let cfg = match replay_config(None, "/d".to_string(), true, None, None, None, None) {
        Ok(c) => c,
        Err(e) => panic!("{}", e.message()),
    };
    assert_eq!(cfg.port, DEFAULT_PORT);
    assert_eq!(cfg.port, 8888);
    assert!(matches!(cfg.rewrite, RewriteRule::Relative));
    assert_eq!(cfg.config_path, None);
    assert_eq!(DEFAULT_ABSOLUTE_BASE, "http://127.0.0.1:8888/");
    match replay_config(
        None,
        "/d".to_string(),
        true,
        Some(RewriteMode::Absolute),
        None,
        None,
        None,
    ) {
        Ok(c) => match c.rewrite {
            RewriteRule::Absolute { base } => assert_eq!(base, DEFAULT_ABSOLUTE_BASE),
            _ => panic!("expected absolute rewriting"),
        },
        Err(e) => panic!("{}", e.message()),
    }
}

#[test]
fn replay_config_refuses_bad_settings() {
    let section = ReplaySection {
        port: None,
        rewrite: Some("Foo".to_string()),
        absolute_base: None,
    };
    match replay_config(None, "/d".to_string(), true, None, None, None, Some(section)) {
        Err(ConfigError::InvalidRewrite { value }) => assert_eq!(value, "foo"),
        _ => panic!("an unknown way of rewriting must be refused"),
    }
    match replay_config(None, "/gone".to_string(), false, None, None, None, None) {
        Err(ConfigError::MissingDir { dir }) => assert_eq!(dir, "/gone"),
        _ => panic!("a missing directory must be refused"),
    }
}

#[test]
fn rewrite_modes_have_names() {
    assert_eq!(parse_rewrite_mode("relative").ok(), Some(RewriteMode::Relative));
    assert_eq!(parse_rewrite_mode(" ABSOLUTE\n").ok(), Some(RewriteMode::Absolute));
    assert_eq!(parse_rewrite_mode("None").ok(), Some(RewriteMode::Keep));
    assert!(parse_rewrite_mode("").is_err());
}
