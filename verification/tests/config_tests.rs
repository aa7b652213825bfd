use apaseh::config::{Config, ConfigError, ProxyRuleError};

#[test]
fn defaults_for_cpu_count() {
    let c = Config::with_cpus(4);
    assert_eq!(c.port, 7888);
    assert_eq!(c.worker_processes, 4);
    assert_eq!(c.root, "./static");
    assert_eq!(c.log.as_deref(), Some("./logs/access.log"));
    assert_eq!(c.max_connections, 100_000);
    assert_eq!(c.keep_alive_timeout, 120);
    assert_eq!(c.send_timeout, 60);
    assert_eq!(c.client_max_body_size, 1024 * 1024);
    assert_eq!(c.worker_connections, 1024);
    assert_eq!(c.cache_size, 100 * 1024 * 1024);
    assert_eq!(c.cache_ttl, 3600);
    assert!(c.sendfile);
    assert!(c.tcp_nodelay);
    assert!(!c.tcp_nopush);
    assert_eq!(c.backlog, 65536);
    assert_eq!(c.proxy_timeout, 30);
    assert!(c.proxy_rules.is_empty());
    assert_eq!(Config::with_cpus(0).worker_processes, 1);
}

#[test]
fn default_uses_machine() {
    let c = Config::default();
    assert!(c.worker_processes >= 1);
    assert_eq!(c.port, 7888);
}

#[test]
fn parse_settings() {
    let text = "# comment\n\
                port = 8080\n\
                \n\
                worker_processes = auto\n\
                root = /var/www \n\
                log = /tmp/a.log\n\
                max_connections=10\n\
                keep_alive_timeout = 5\r\n\
                send_timeout = 6\n\
                client_max_body_size = 7\n\
                worker_connections = 8\n\
                cache_size = 9\n\
                cache_ttl = 10\n\
                sendfile = false\n\
                tcp_nodelay = false\n\
                tcp_nopush = true\n\
                backlog = -5\n\
                proxy_timeout = 11\n\
                unknown_key = 1\n\
                no equals sign here\n";
    let c = Config::parse_with_cpus(text, 3).ok().unwrap();
    assert_eq!(c.port, 8080);
    assert_eq!(c.worker_processes, 3);
    assert_eq!(c.root, "/var/www");
    assert_eq!(c.log.as_deref(), Some("/tmp/a.log"));
    assert_eq!(c.max_connections, 10);
    assert_eq!(c.keep_alive_timeout, 5);
    assert_eq!(c.send_timeout, 6);
    assert_eq!(c.client_max_body_size, 7);
    assert_eq!(c.worker_connections, 8);
    assert_eq!(c.cache_size, 9);
    assert_eq!(c.cache_ttl, 10);
    assert!(!c.sendfile);
    assert!(!c.tcp_nodelay);
    assert!(c.tcp_nopush);
    assert_eq!(c.backlog, -5);
    assert_eq!(c.proxy_timeout, 11);
}

#[test]
fn parse_empty_gives_defaults() {
    let c = Config::parse_with_cpus("", 2).ok().unwrap();
    assert_eq!(c.port, 7888);
    assert_eq!(c.worker_processes, 2);
    let c0 = Config::parse_with_cpus("   \n# only a comment\n", 0).ok().unwrap();
    assert_eq!(c0.worker_processes, 1);
}

#[test]
fn parse_numbers_follow_std() {
    assert_eq!(Config::parse_with_cpus("port = +80", 1).ok().unwrap().port, 80);
    assert_eq!(Config::parse_with_cpus("port = 65535", 1).ok().unwrap().port, 65535);
    assert_eq!(Config::parse_with_cpus("backlog = -2147483648", 1).ok().unwrap().backlog, i32::MIN);
    assert_eq!(Config::parse_with_cpus("backlog = 2147483647", 1).ok().unwrap().backlog, i32::MAX);
    assert_eq!(Config::parse_with_cpus("worker_processes = 12", 1).ok().unwrap().worker_processes, 12);
    assert_eq!(
        Config::parse_with_cpus("cache_ttl = 18446744073709551615", 1).ok().unwrap().cache_ttl,
        u64::MAX
    );
}

#[test]
fn parse_errors_name_the_line() {
    assert_eq!(Config::parse_with_cpus("port = abc", 1).err(), Some(ConfigError::InvalidValue { line: 1 }));
    assert_eq!(
        Config::parse_with_cpus("root = x\nport = 70000\n", 1).err(),
        Some(ConfigError::InvalidValue { line: 2 })
    );
    assert_eq!(Config::parse_with_cpus("port = -1", 1).err(), Some(ConfigError::InvalidValue { line: 1 }));
    assert_eq!(Config::parse_with_cpus("port =", 1).err(), Some(ConfigError::InvalidValue { line: 1 }));
    assert_eq!(Config::parse_with_cpus("sendfile = yes", 1).err(), Some(ConfigError::InvalidValue { line: 1 }));
    assert_eq!(
        Config::parse_with_cpus("backlog = 2147483648", 1).err(),
        Some(ConfigError::InvalidValue { line: 1 })
    );
    assert_eq!(
        Config::parse_with_cpus("\n\nproxy = /api", 1).err(),
        Some(ConfigError::InvalidProxyRule { line: 3 })
    );
    assert_eq!(
        Config::parse_with_cpus("worker_processes = Auto", 1).err(),
        Some(ConfigError::InvalidValue { line: 1 })
    );
}

#[test]
fn parse_proxy_lines() {
    let text = "proxy = /api=http://localhost:3000,strip_prefix=true,X-Test = 1\nproxy = /static/=http://cdn\n";
    let c = Config::parse_with_cpus(text, 1).ok().unwrap();
    assert_eq!(c.proxy_rules.len(), 2);
    let r = &c.proxy_rules[0];
    assert_eq!(r.path_prefix, "/api");
    assert_eq!(r.backend_url, "http://localhost:3000");
    assert!(r.strip_prefix);
    assert_eq!(r.headers.get("X-Test").map(|s| s.as_str()), Some("1"));
    let r2 = &c.proxy_rules[1];
    assert_eq!(r2.path_prefix, "/static/");
    assert!(!r2.strip_prefix);
    assert_eq!(r2.headers.len(), 0);
}

#[test]
fn proxy_rule_parsing() {
    let r = Config::parse_proxy_rule(" /a = http://b ,strip_prefix=maybe,nokey,K=V").ok().unwrap();
    assert_eq!(r.path_prefix, " /a ");
    assert_eq!(r.backend_url, " http://b ");
    assert!(!r.strip_prefix);
    assert_eq!(r.headers.len(), 1);
    assert_eq!(r.headers.get("K").map(|s| s.as_str()), Some("V"));
    let r2 = Config::parse_proxy_rule("/x=y,strip_prefix=true,strip_prefix=false").ok().unwrap();
    assert!(!r2.strip_prefix);
    assert_eq!(Config::parse_proxy_rule("/x").err(), Some(ProxyRuleError::MissingBackend));
    assert_eq!(Config::parse_proxy_rule("/x,a=b").err(), Some(ProxyRuleError::MissingBackend));
}

#[test]
fn from_text_uses_machine_cpus() {
    let c = Config::from_text("worker_processes = auto").ok().unwrap();
    assert!(c.worker_processes >= 1);
}
