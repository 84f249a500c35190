use ssh_config_enhance::{filter_servers, parse_ssh_config, render_ssh_config};
use ssh_config_enhance::{LocalForward, ParseError, ParsedConfig, ServerConfig};

fn host(tag: &str) -> ServerConfig {
    ServerConfig {
        host_tag: tag.to_string(),
        user: String::new(),
        hostname: String::new(),
        port: 22,
        group: String::new(),
        tags: Vec::new(),
        forward_agent: false,
        dynamic_forward: None,
        local_forward: None,
        proxy_jump: None,
    }
}

fn tagged(tag: &str, group: &str, tags: &[&str]) -> ServerConfig {
    let mut h = host(tag);
    h.group = group.to_string();
    h.tags = tags.iter().map(|t| t.to_string()).collect();
    h
}

fn config(servers: Vec<ServerConfig>) -> ParsedConfig {
    ParsedConfig { global: Vec::new(), servers }
}

fn tags_of(servers: &[ServerConfig]) -> Vec<String> {
    servers.iter().map(|s| s.host_tag.clone()).collect()
}

#[test]
fn round_trip_full_config() {
    let mut web = host("web");
    web.user = "alice".to_string();
    web.hostname = "10.0.0.5".to_string();
    web.port = 2222;
    web.group = "prod-east".to_string();
    web.tags = vec!["web".to_string(), "frontend".to_string()];
    web.forward_agent = true;
    web.dynamic_forward = Some("1080".to_string());
    web.local_forward = Some(LocalForward {
        local_port: 8080,
        remote_host: "db.internal".to_string(),
        remote_port: 5432,
    });
    web.proxy_jump = Some("bastion".to_string());
    let mut db = host("db");
    db.hostname = "db.example.com".to_string();
    let written = ParsedConfig {
        global: vec![
            ("StrictHostKeyChecking".to_string(), "no".to_string()),
            ("ServerAliveInterval".to_string(), "60".to_string()),
        ],
        servers: vec![web, db],
    };
    let text = render_ssh_config(&written);
    assert_eq!(parse_ssh_config(&text), Ok(written));
}

#[test]
fn round_trip_without_global_block() {
    let written = config(vec![tagged("a", "ops", &[]), tagged("b", "", &["x", "y"]), host("c")]);
    let text = render_ssh_config(&written);
    assert!(!text.contains("Host *"));
    assert_eq!(parse_ssh_config(&text), Ok(written));
}

#[test]
fn render_exact_text() {
    let mut web = host("web");
    web.user = "alice".to_string();
    web.port = 2222;
    web.group = "ops".to_string();
    web.tags = vec!["a".to_string(), "b".to_string()];
    web.local_forward = Some(LocalForward {
        local_port: 8080,
        remote_host: "localhost".to_string(),
        remote_port: 80,
    });
    let c = ParsedConfig {
        global: vec![("Compression".to_string(), "yes".to_string())],
        servers: vec![web],
    };
    assert_eq!(
        render_ssh_config(&c),
        "Host *\n    Compression yes\n\nHost web\n    User alice\n    Port 2222\n    LocalForward 8080 localhost:80\n# Group ops\n# Tags a b\n\n"
    );
}

#[test]
fn render_empty_config_is_empty() {
    assert_eq!(render_ssh_config(&config(Vec::new())), "");
}

#[test]
fn default_port_is_omitted() {
    let text = render_ssh_config(&config(vec![host("a")]));
    assert!(!text.contains("Port"));
    assert_eq!(text, "Host a\n\n");
}

#[test]
fn other_port_is_written() {
    let mut h = host("a");
    h.port = 2222;
    let text = render_ssh_config(&config(vec![h]));
    assert!(text.contains("    Port 2222\n"));
}

#[test]
fn filter_keeps_annotated_hosts_only() {
    let hosts = config(vec![tagged("A", "ops", &[]), tagged("B", "", &[])]);
    assert_eq!(tags_of(&filter_servers(&hosts, None, None)), vec!["A".to_string()]);
}

#[test]
fn filter_group_is_substring_match() {
    let hosts = config(vec![tagged("east", "prod-east", &[]), tagged("dev", "dev", &[])]);
    assert_eq!(tags_of(&filter_servers(&hosts, Some("prod"), None)), vec!["east".to_string()]);
}

#[test]
fn filter_tag_is_exact_match() {
    let hosts = config(vec![tagged("p", "", &["prod"])]);
    assert!(filter_servers(&hosts, None, Some("pro")).is_empty());
    assert_eq!(tags_of(&filter_servers(&hosts, None, Some("prod"))), vec!["p".to_string()]);
}

#[test]
fn filter_group_requires_a_group() {
    let hosts = config(vec![tagged("t", "", &["prod"])]);
    assert!(filter_servers(&hosts, Some(""), None).is_empty());
}

#[test]
fn filter_both_filters_must_hold() {
    let hosts = config(vec![
        tagged("a", "prod", &["web"]),
        tagged("b", "prod", &["db"]),
        tagged("c", "dev", &["web"]),
    ]);
    assert_eq!(tags_of(&filter_servers(&hosts, Some("prod"), Some("web"))), vec!["a".to_string()]);
}

#[test]
fn filter_skips_empty_host_tag() {
    let hosts = config(vec![tagged("", "ops", &[])]);
    assert!(filter_servers(&hosts, None, None).is_empty());
}

#[test]
fn filter_keeps_order() {
    let hosts = config(vec![
        tagged("c", "g", &[]),
        host("skip"),
        tagged("a", "g", &[]),
        tagged("b", "g", &[]),
    ]);
    let kept = filter_servers(&hosts, Some("g"), None);
    assert_eq!(tags_of(&kept), vec!["c".to_string(), "a".to_string(), "b".to_string()]);
    assert_eq!(kept[0], hosts.servers[0]);
}

#[test]
fn parse_keeps_declaration_order() {
    let text = "Host zeta\nHost alpha\nHost mid\n";
    let c = parse_ssh_config(text).unwrap();
    assert_eq!(
        tags_of(&c.servers),
        vec!["zeta".to_string(), "alpha".to_string(), "mid".to_string()]
    );
}

#[test]
fn global_block_is_isolated() {
    let text = "Host *\n  StrictHostKeyChecking no\n\nHost web\n  User alice\n";
    let c = parse_ssh_config(text).unwrap();
    assert_eq!(c.global, vec![("StrictHostKeyChecking".to_string(), "no".to_string())]);
    let mut web = host("web");
    web.user = "alice".to_string();
    assert_eq!(c.servers, vec![web]);
}

#[test]
fn malformed_local_forward_is_skipped() {
    let text = "Host a\n  LocalForward abc def\n  User bob\nHost b\n";
    let c = parse_ssh_config(text).unwrap();
    assert_eq!(c.servers.len(), 2);
    assert_eq!(c.servers[0].local_forward, None);
    assert_eq!(c.servers[0].user, "bob");
}

#[test]
fn malformed_port_fails_the_parse() {
    let text = "Host a\n  LocalForward abc def\n  Port abc\nHost b\n";
    assert_eq!(parse_ssh_config(text), Err(ParseError::MalformedPort("abc".to_string())));
}

#[test]
fn port_out_of_range_fails() {
    assert_eq!(
        parse_ssh_config("Host a\n Port 65536\n"),
        Err(ParseError::MalformedPort("65536".to_string()))
    );
    assert_eq!(
        parse_ssh_config("Host a\n Port 0\n"),
        Err(ParseError::MalformedPort("0".to_string()))
    );
}

#[test]
fn port_accepts_plus_sign_and_largest_value() {
    assert_eq!(parse_ssh_config("Host a\n Port +2200\n").unwrap().servers[0].port, 2200);
    assert_eq!(parse_ssh_config("Host a\n Port 65535\n").unwrap().servers[0].port, 65535);
}

#[test]
fn port_in_global_block_is_not_checked() {
    let c = parse_ssh_config("Host *\n Port abc\n").unwrap();
    assert_eq!(c.global, vec![("Port".to_string(), "abc".to_string())]);
}

#[test]
fn local_forward_splits_at_last_colon() {
    let c = parse_ssh_config("Host a\n LocalForward 8080 ::1:80\n").unwrap();
    assert_eq!(
        c.servers[0].local_forward,
        Some(LocalForward { local_port: 8080, remote_host: "::1".to_string(), remote_port: 80 })
    );
}

#[test]
fn local_forward_needs_both_ports() {
    let c = parse_ssh_config("Host a\n LocalForward 8080 host\n LocalForward 99999 h:1\n").unwrap();
    assert_eq!(c.servers[0].local_forward, None);
}

#[test]
fn directives_are_case_insensitive() {
    let text = "HOST web\n  USER root\n  hostname example.org\n  forwardagent YES\n  PROXYJUMP jump\n  dynamicForward 9050\n";
    let c = parse_ssh_config(text).unwrap();
    let h = &c.servers[0];
    assert_eq!(h.host_tag, "web");
    assert_eq!(h.user, "root");
    assert_eq!(h.hostname, "example.org");
    assert!(h.forward_agent);
    assert_eq!(h.proxy_jump, Some("jump".to_string()));
    assert_eq!(h.dynamic_forward, Some("9050".to_string()));
}

#[test]
fn forward_agent_other_value_is_off() {
    let c = parse_ssh_config("Host a\n ForwardAgent no\n").unwrap();
    assert!(!c.servers[0].forward_agent);
}

#[test]
fn annotations_are_read() {
    let text = "Host a\n#group   ops extra\n  # TAGS one  two three # rest\n";
    let c = parse_ssh_config(text).unwrap();
    assert_eq!(c.servers[0].group, "ops");
    assert_eq!(
        c.servers[0].tags,
        vec!["one".to_string(), "two".to_string(), "three".to_string()]
    );
}

#[test]
fn unknown_directives_and_stray_lines_are_ignored() {
    let text = "User nobody\n# Group early\nHost a\n  IdentityFile ~/.ssh/id\n  lonely\n";
    let c = parse_ssh_config(text).unwrap();
    assert!(c.global.is_empty());
    assert_eq!(c.servers, vec![host("a")]);
}

#[test]
fn comment_in_global_block_is_a_pair() {
    let c = parse_ssh_config("Host *\n  # Group ops\n").unwrap();
    assert_eq!(c.global, vec![("#".to_string(), "Group ops".to_string())]);
    assert!(c.servers.is_empty());
}

#[test]
fn value_keeps_inner_whitespace() {
    let c = parse_ssh_config("Host a\r\n  User   the  user  \r\n").unwrap();
    assert_eq!(c.servers[0].user, "the  user");
}

#[test]
fn empty_input_gives_empty_config() {
    assert_eq!(parse_ssh_config(""), Ok(config(Vec::new())));
    assert_eq!(parse_ssh_config("\n\n   \n"), Ok(config(Vec::new())));
}

#[test]
fn host_takes_first_token_only() {
    let c = parse_ssh_config("Host one two\nHostname x\n").unwrap();
    assert_eq!(c.servers[0].host_tag, "one");
    assert_eq!(c.servers[0].hostname, "x");
}

#[test]
fn wildcard_block_can_be_reentered() {
    let text = "Host *\n A 1\nHost web\n User u\nHost *\n B 2\n";
    let c = parse_ssh_config(text).unwrap();
    assert_eq!(
        c.global,
        vec![("A".to_string(), "1".to_string()), ("B".to_string(), "2".to_string())]
    );
    assert_eq!(c.servers.len(), 1);
}

#[test]
fn render_writes_host_lines_in_stored_order() {
    let c = ParsedConfig {
        global: vec![("A".to_string(), "1".to_string())],
        servers: vec![host("zeta"), host("alpha"), host("zeta")],
    };
    let text = render_ssh_config(&c);
    let heads: Vec<&str> = text.lines().filter(|l| l.starts_with("Host ")).collect();
    assert_eq!(heads, vec!["Host *", "Host zeta", "Host alpha", "Host zeta"]);
}

#[test]
fn parse_keeps_repeated_declarations() {
    let c = parse_ssh_config("Host a\nHost *\nHost b\nHost a\n").unwrap();
    assert_eq!(tags_of(&c.servers), vec!["a".to_string(), "b".to_string(), "a".to_string()]);
}
