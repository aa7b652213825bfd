//! Server configuration: defaults, the `key = value` configuration text and
//! proxy rules written as `prefix=backend,option=value,...`.

use vstd::prelude::*;

use crate::headers::{insert_entry, HeaderView, Headers};
use crate::proxy::{rules_view, ProxyRule, RuleView};
use crate::text::{
    chars_eq_str, chars_of, decimal, find_char, index_of, lines, parse_bool, parse_bool_chars, parse_i32,
    parse_i32_chars, parse_unsigned, parse_unsigned_chars, split_chars, split_lines, split_on,
    string_from, string_of, trim, trim_chars, views_of, lemma_split_from_nonempty,
};

verus! {

// ---------------------------------------------------------------------------
// Plain views and specifications
// ---------------------------------------------------------------------------

/// A configuration as plain values.
pub struct ConfigView {
    pub port: u16,
    pub proxy_rules: Seq<RuleView>,
    pub proxy_timeout: u64,
    pub worker_processes: usize,
    pub root: Seq<char>,
    pub log: Option<Seq<char>>,
    pub max_connections: usize,
    pub keep_alive_timeout: u64,
    pub send_timeout: u64,
    pub client_max_body_size: usize,
    pub worker_connections: usize,
    pub cache_size: usize,
    pub cache_ttl: u64,
    pub sendfile: bool,
    pub tcp_nodelay: bool,
    pub tcp_nopush: bool,
    pub backlog: i32,
}

/// The configuration that applies when nothing is set, on a machine with
/// `cpus` available processors.
pub open spec fn default_config(cpus: usize) -> ConfigView {
    ConfigView {
        port: 7888,
        proxy_rules: Seq::empty(),
        proxy_timeout: 30,
        worker_processes: if cpus > 0 {
            cpus
        } else {
            1
        },
        root: "./static"@,
        log: Some("./logs/access.log"@),
        max_connections: 100_000,
        keep_alive_timeout: 120,
        send_timeout: 60,
        client_max_body_size: 1_048_576,
        worker_connections: 1024,
        cache_size: 104_857_600,
        cache_ttl: 3600,
        sendfile: true,
        tcp_nodelay: true,
        tcp_nopush: false,
        backlog: 65536,
    }
}

/// Why a configuration text was refused.
#[derive(Debug, PartialEq, Eq, Structural)]
pub enum ConfigError {
    /// The value on this line (counted from 1) does not parse for its key.
    InvalidValue { line: usize },
    /// The proxy rule on this line (counted from 1) has no `prefix=backend` part.
    InvalidProxyRule { line: usize },
}

/// Why a proxy rule text was refused.
#[derive(Debug, PartialEq, Eq, Structural)]
pub enum ProxyRuleError {
    /// The part before the first comma holds no `=`.
    MissingBackend,
}

/// One `key=value` option of a proxy rule: `strip_prefix` sets stripping
/// (false unless the value is `true`), any other key adds a header; a part
/// without `=` changes nothing.
pub open spec fn apply_rule_option(r: RuleView, part: Seq<char>) -> RuleView {
    match index_of(part, '=') {
        Some(p) => {
            let k = trim(part.subrange(0, p));
            let v = trim(part.subrange(p + 1, part.len() as int));
            if k == "strip_prefix"@ {
                RuleView {
                    strip_prefix: match parse_bool(v) {
                        Some(b) => b,
                        None => false,
                    },
                    ..r
                }
            } else {
                RuleView { headers: insert_entry(r.headers, k, v), ..r }
            }
        },
        None => r,
    }
}

/// The options applied in order.
pub open spec fn apply_rule_options(r: RuleView, parts: Seq<Seq<char>>) -> RuleView
    decreases parts.len(),
{
    if parts.len() == 0 {
        r
    } else {
        apply_rule_options(apply_rule_option(r, parts[0]), parts.drop_first())
    }
}

/// The proxy rule that a rule text describes: the part before the first
/// comma is `prefix=backend` (cut at its first `=`, nothing trimmed); the
/// other comma-separated parts are options.
pub open spec fn rule_from_text(s: Seq<char>) -> Option<RuleView> {
    let parts = split_on(s, ',');
    let main = parts[0];
    match index_of(main, '=') {
        Some(p) => Some(
            apply_rule_options(
                RuleView {
                    path_prefix: main.subrange(0, p),
                    backend_url: main.subrange(p + 1, main.len() as int),
                    strip_prefix: false,
                    headers: Seq::empty(),
                },
                parts.drop_first(),
            ),
        ),
        None => None,
    }
}

/// The configuration after the setting `key = value` on line `line`, with
/// `cpus` processors for `worker_processes = auto`; unknown keys change nothing.
pub open spec fn apply_setting(
    c: ConfigView,
    key: Seq<char>,
    value: Seq<char>,
    line: usize,
    cpus: usize,
) -> Result<ConfigView, ConfigError> {
    let bad = ConfigError::InvalidValue { line };
    let as_usize = parse_unsigned(value, usize::MAX as nat);
    let as_u64 = parse_unsigned(value, u64::MAX as nat);
    let as_bool = parse_bool(value);
    if key == "port"@ {
        match parse_unsigned(value, 65535) {
            Some(n) => Ok(ConfigView { port: n as u16, ..c }),
            None => Err(bad),
        }
    } else if key == "worker_processes"@ {
        if value == "auto"@ {
            Ok(ConfigView { worker_processes: cpus, ..c })
        } else {
            match as_usize {
                Some(n) => Ok(ConfigView { worker_processes: n as usize, ..c }),
                None => Err(bad),
            }
        }
    } else if key == "root"@ {
        Ok(ConfigView { root: value, ..c })
    } else if key == "log"@ {
        Ok(ConfigView { log: Some(value), ..c })
    } else if key == "max_connections"@ {
        match as_usize {
            Some(n) => Ok(ConfigView { max_connections: n as usize, ..c }),
            None => Err(bad),
        }
    } else if key == "keep_alive_timeout"@ {
        match as_u64 {
            Some(n) => Ok(ConfigView { keep_alive_timeout: n as u64, ..c }),
            None => Err(bad),
        }
    } else if key == "send_timeout"@ {
        match as_u64 {
            Some(n) => Ok(ConfigView { send_timeout: n as u64, ..c }),
            None => Err(bad),
        }
    } else if key == "client_max_body_size"@ {
        match as_usize {
            Some(n) => Ok(ConfigView { client_max_body_size: n as usize, ..c }),
            None => Err(bad),
        }
    } else if key == "worker_connections"@ {
        match as_usize {
            Some(n) => Ok(ConfigView { worker_connections: n as usize, ..c }),
            None => Err(bad),
        }
    } else if key == "cache_size"@ {
        match as_usize {
            Some(n) => Ok(ConfigView { cache_size: n as usize, ..c }),
            None => Err(bad),
        }
    } else if key == "cache_ttl"@ {
        match as_u64 {
            Some(n) => Ok(ConfigView { cache_ttl: n as u64, ..c }),
            None => Err(bad),
        }
    } else if key == "sendfile"@ {
        match as_bool {
            Some(b) => Ok(ConfigView { sendfile: b, ..c }),
            None => Err(bad),
        }
    } else if key == "tcp_nodelay"@ {
        match as_bool {
            Some(b) => Ok(ConfigView { tcp_nodelay: b, ..c }),
            None => Err(bad),
        }
    } else if key == "tcp_nopush"@ {
        match as_bool {
            Some(b) => Ok(ConfigView { tcp_nopush: b, ..c }),
            None => Err(bad),
        }
    } else if key == "backlog"@ {
        match parse_i32(value) {
            Some(n) => Ok(ConfigView { backlog: n as i32, ..c }),
            None => Err(bad),
        }
    } else if key == "proxy_timeout"@ {
        match as_u64 {
            Some(n) => Ok(ConfigView { proxy_timeout: n as u64, ..c }),
            None => Err(bad),
        }
    } else if key == "proxy"@ {
        match rule_from_text(value) {
            Some(r) => Ok(ConfigView { proxy_rules: c.proxy_rules.push(r), ..c }),
            None => Err(ConfigError::InvalidProxyRule { line }),
        }
    } else {
        Ok(c)
    }
}

/// The configuration after one line: blank lines, `#` comments and lines
/// without `=` change nothing; otherwise the trimmed text before the first
/// `=` is the key and the trimmed text after it the value.
pub open spec fn apply_line(c: ConfigView, line: Seq<char>, number: usize, cpus: usize) -> Result<
    ConfigView,
    ConfigError,
> {
    let t = trim(line);
    if t.len() == 0 || t[0] == '#' {
        Ok(c)
    } else {
        match index_of(t, '=') {
            Some(p) => apply_setting(
                c,
                trim(t.subrange(0, p)),
                trim(t.subrange(p + 1, t.len() as int)),
                number,
                cpus,
            ),
            None => Ok(c),
        }
    }
}

/// The configuration after the lines `ls`, the first of which has number
/// `number`; the first refused line ends it with its error.
pub open spec fn apply_lines(c: ConfigView, ls: Seq<Seq<char>>, number: int, cpus: usize) -> Result<
    ConfigView,
    ConfigError,
>
    decreases ls.len(),
{
    if ls.len() == 0 {
        Ok(c)
    } else {
        match apply_line(c, ls[0], number as usize, cpus) {
            Ok(c2) => apply_lines(c2, ls.drop_first(), number + 1, cpus),
            Err(e) => Err(e),
        }
    }
}

/// The configuration that a configuration text describes, on a machine with
/// `cpus` available processors: the defaults, changed by each line in turn.
pub open spec fn config_from_text(text: Seq<char>, cpus: usize) -> Result<ConfigView, ConfigError> {
    apply_lines(default_config(cpus), lines(text), 1, cpus)
}

// ---------------------------------------------------------------------------
// The configuration
// ---------------------------------------------------------------------------

/// The server's configuration.
pub struct Config {
    pub port: u16,
    pub proxy_rules: Vec<ProxyRule>,
    pub proxy_timeout: u64,
    pub worker_processes: usize,
    pub root: String,
    pub log: Option<String>,
    pub max_connections: usize,
    pub keep_alive_timeout: u64,
    pub send_timeout: u64,
    pub client_max_body_size: usize,
    pub worker_connections: usize,
    pub cache_size: usize,
    pub cache_ttl: u64,
    pub sendfile: bool,
    pub tcp_nodelay: bool,
    pub tcp_nopush: bool,
    pub backlog: i32,
}

/// The plain view of an optional string.
pub open spec fn opt_view(s: Option<String>) -> Option<Seq<char>> {
    match s {
        Some(x) => Some(x@),
        None => None,
    }
}

impl View for Config {
    type V = ConfigView;

    open spec fn view(&self) -> ConfigView {
        ConfigView {
            port: self.port,
            proxy_rules: rules_view(self.proxy_rules@),
            proxy_timeout: self.proxy_timeout,
            worker_processes: self.worker_processes,
            root: self.root@,
            log: opt_view(self.log),
            max_connections: self.max_connections,
            keep_alive_timeout: self.keep_alive_timeout,
            send_timeout: self.send_timeout,
            client_max_body_size: self.client_max_body_size,
            worker_connections: self.worker_connections,
            cache_size: self.cache_size,
            cache_ttl: self.cache_ttl,
            sendfile: self.sendfile,
            tcp_nodelay: self.tcp_nodelay,
            tcp_nopush: self.tcp_nopush,
            backlog: self.backlog,
        }
    }
}

/// `num_cpus::get`: the number of processors available to this process,
/// which its documentation promises is at least 1. The count depends on the
/// machine, so nothing else is stated.
#[verifier::external_body]
fn available_cpus() -> (n: usize)
    ensures
        n >= 1,
{
    num_cpus::get()
}

impl Default for Config {
    /// The defaults for this machine's processor count.
    fn default() -> (c: Self)
        ensures
            c@.worker_processes >= 1,
            c@ == default_config(c@.worker_processes),
    {
        Config::with_cpus(available_cpus())
    }
}

impl Config {
    /// The defaults on a machine with `cpus` available processors.
    pub fn with_cpus(cpus: usize) -> (c: Self)
        ensures
            c@ == default_config(cpus),
    {
        let c = Config {
            port: 7888,
            proxy_rules: Vec::new(),
            proxy_timeout: 30,
            worker_processes: if cpus > 0 {
                cpus
            } else {
                1
            },
            root: "./static".to_owned(),
            log: Some("./logs/access.log".to_owned()),
            max_connections: 100_000,
            keep_alive_timeout: 120,
            send_timeout: 60,
            client_max_body_size: 1024 * 1024,
            worker_connections: 1024,
            cache_size: 100 * 1024 * 1024,
            cache_ttl: 3600,
            sendfile: true,
            tcp_nodelay: true,
            tcp_nopush: false,
            backlog: 65536,
        };
        assert(rules_view(c.proxy_rules@) =~= Seq::<RuleView>::empty());
        c
    }

    /// Reads a proxy rule: `prefix=backend` before the first comma, then
    /// `key=value` options.
    pub fn parse_proxy_rule(rule_str: &str) -> (r: Result<ProxyRule, ProxyRuleError>)
        ensures
            match rule_from_text(rule_str@) {
                Some(v) => r is Ok && r->Ok_0@ == v,
                None => r is Err && r->Err_0 == ProxyRuleError::MissingBackend,
            },
    {
        let chars = chars_of(rule_str);
        let parts = split_chars(&chars, ',');
        let ghost pv = views_of(parts@);
        proof {
            lemma_split_from_nonempty(rule_str@, ',', Seq::empty());
        }
        let main = &parts[0];
        assert(pv[0] == main@);
        let pos = match find_char(main, '=') {
            Some(p) => p,
            None => {
                return Err(ProxyRuleError::MissingBackend);
            },
        };
        let mut rule = ProxyRule {
            path_prefix: string_of(main, 0, pos),
            backend_url: string_of(main, pos + 1, main.len()),
            strip_prefix: false,
            headers: Headers::new(),
        };
        let ghost goal = apply_rule_options(rule@, pv.drop_first());
        let mut k: usize = 1;
        assert(pv.skip(1) =~= pv.drop_first());
        while k < parts.len()
            invariant
                1 <= k <= parts.len(),
                pv == views_of(parts@),
                goal == apply_rule_options(rule@, pv.skip(k as int)),
            decreases parts.len() - k,
        {
            assert(pv.skip(k as int).drop_first() =~= pv.skip(k + 1));
            assert(pv.skip(k as int)[0] == parts@[k as int]@);
            let part = &parts[k];
            match find_char(part, '=') {
                Some(p) => {
                    let raw_key = crate::text::slice_of(part, 0, p);
                    let key = trim_chars(&raw_key);
                    let raw_value = crate::text::slice_of(part, p + 1, part.len());
                    let value = trim_chars(&raw_value);
                    if chars_eq_str(&key, "strip_prefix") {
                        rule.strip_prefix = match parse_bool_chars(&value) {
                            Some(b) => b,
                            None => false,
                        };
                    } else {
                        rule.headers.insert(string_from(&key), string_from(&value));
                    }
                },
                None => {},
            }
            k = k + 1;
        }
        assert(pv.skip(k as int) =~= Seq::<Seq<char>>::empty());
        Ok(rule)
    }

    /// Applies the setting `key = value` from line `line`.
    fn apply_setting(
        &mut self,
        key: &Vec<char>,
        value: &Vec<char>,
        line: usize,
        cpus: usize,
    ) -> (r: Result<(), ConfigError>)
        ensures
            match apply_setting(old(self)@, key@, value@, line, cpus) {
                Ok(c) => r is Ok && final(self)@ == c,
                Err(e) => r is Err && r->Err_0 == e,
            },
    {
        let bad = ConfigError::InvalidValue { line };
        if chars_eq_str(key, "port") {
            match parse_unsigned_chars(value, 65535) {
                Some(n) => {
                    self.port = n as u16;
                    Ok(())
                },
                None => Err(bad),
            }
        } else if chars_eq_str(key, "worker_processes") {
            if chars_eq_str(value, "auto") {
                self.worker_processes = cpus;
                Ok(())
            } else {
                match parse_unsigned_chars(value, usize::MAX as u64) {
                    Some(n) => {
                        self.worker_processes = n as usize;
                        Ok(())
                    },
                    None => Err(bad),
                }
            }
        } else if chars_eq_str(key, "root") {
            self.root = string_from(value);
            Ok(())
        } else if chars_eq_str(key, "log") {
            self.log = Some(string_from(value));
            Ok(())
        } else if chars_eq_str(key, "max_connections") {
            match parse_unsigned_chars(value, usize::MAX as u64) {
                Some(n) => {
                    self.max_connections = n as usize;
                    Ok(())
                },
                None => Err(bad),
            }
        } else if chars_eq_str(key, "keep_alive_timeout") {
            match parse_unsigned_chars(value, u64::MAX) {
                Some(n) => {
                    self.keep_alive_timeout = n;
                    Ok(())
                },
                None => Err(bad),
            }
        } else if chars_eq_str(key, "send_timeout") {
            match parse_unsigned_chars(value, u64::MAX) {
                Some(n) => {
                    self.send_timeout = n;
                    Ok(())
                },
                None => Err(bad),
            }
        } else if chars_eq_str(key, "client_max_body_size") {
            match parse_unsigned_chars(value, usize::MAX as u64) {
                Some(n) => {
                    self.client_max_body_size = n as usize;
                    Ok(())
                },
                None => Err(bad),
            }
        } else if chars_eq_str(key, "worker_connections") {
            match parse_unsigned_chars(value, usize::MAX as u64) {
                Some(n) => {
                    self.worker_connections = n as usize;
                    Ok(())
                },
                None => Err(bad),
            }
        } else if chars_eq_str(key, "cache_size") {
            match parse_unsigned_chars(value, usize::MAX as u64) {
                Some(n) => {
                    self.cache_size = n as usize;
                    Ok(())
                },
                None => Err(bad),
            }
        } else if chars_eq_str(key, "cache_ttl") {
            match parse_unsigned_chars(value, u64::MAX) {
                Some(n) => {
                    self.cache_ttl = n;
                    Ok(())
                },
                None => Err(bad),
            }
        } else if chars_eq_str(key, "sendfile") {
            match parse_bool_chars(value) {
                Some(b) => {
                    self.sendfile = b;
                    Ok(())
                },
                None => Err(bad),
            }
        } else if chars_eq_str(key, "tcp_nodelay") {
            match parse_bool_chars(value) {
                Some(b) => {
                    self.tcp_nodelay = b;
                    Ok(())
                },
                None => Err(bad),
            }
        } else if chars_eq_str(key, "tcp_nopush") {
            match parse_bool_chars(value) {
                Some(b) => {
                    self.tcp_nopush = b;
                    Ok(())
                },
                None => Err(bad),
            }
        } else if chars_eq_str(key, "backlog") {
            match parse_i32_chars(value) {
                Some(n) => {
                    self.backlog = n;
                    Ok(())
                },
                None => Err(bad),
            }
        } else if chars_eq_str(key, "proxy_timeout") {
            match parse_unsigned_chars(value, u64::MAX) {
                Some(n) => {
                    self.proxy_timeout = n;
                    Ok(())
                },
                None => Err(bad),
            }
        } else if chars_eq_str(key, "proxy") {
            let text = string_from(value);
            match Self::parse_proxy_rule(text.as_str()) {
                Ok(rule) => {
                    let ghost before = self.proxy_rules@;
                    let ghost rv = rule@;
                    self.proxy_rules.push(rule);
                    assert(rules_view(self.proxy_rules@) =~= rules_view(before).push(rv));
                    Ok(())
                },
                Err(_) => Err(ConfigError::InvalidProxyRule { line }),
            }
        } else {
            Ok(())
        }
    }

    /// The configuration that `content` describes, starting from the defaults
    /// for `cpus` processors, which `worker_processes = auto` also uses.
    pub fn parse_with_cpus(content: &str, cpus: usize) -> (r: Result<Config, ConfigError>)
        ensures
            match config_from_text(content@, cpus) {
                Ok(c) => r is Ok && r->Ok_0@ == c,
                Err(e) => r is Err && r->Err_0 == e,
            },
    {
        let mut config = Config::with_cpus(cpus);
        let chars = chars_of(content);
        let ls = split_lines(&chars);
        let ghost lv = views_of(ls@);
        let mut i: usize = 0;
        assert(lv.skip(0) =~= lv);
        while i < ls.len()
            invariant
                i <= ls.len(),
                lv == views_of(ls@),
                config_from_text(content@, cpus) == apply_lines(
                    config@,
                    lv.skip(i as int),
                    i + 1,
                    cpus,
                ),
            decreases ls.len() - i,
        {
            assert(lv.skip(i as int).drop_first() =~= lv.skip(i + 1));
            assert(lv.skip(i as int)[0] == ls@[i as int]@);
            let t = trim_chars(&ls[i]);
            if t.len() == 0 || t[0] == '#' {
            } else {
                match find_char(&t, '=') {
                    Some(p) => {
                        let raw_key = crate::text::slice_of(&t, 0, p);
                        let key = trim_chars(&raw_key);
                        let raw_value = crate::text::slice_of(&t, p + 1, t.len());
                        let value = trim_chars(&raw_value);
                        match config.apply_setting(&key, &value, i + 1, cpus) {
                            Ok(()) => {},
                            Err(e) => {
                                return Err(e);
                            },
                        }
                    },
                    None => {},
                }
            }
            i = i + 1;
        }
        assert(lv.skip(i as int) =~= Seq::<Seq<char>>::empty());
        Ok(config)
    }

    /// The configuration that `content` describes on this machine.
    pub fn from_text(content: &str) -> (r: Result<Config, ConfigError>)
        ensures
            exists|cpus: usize|
                cpus >= 1 && match #[trigger] config_from_text(content@, cpus) {
                    Ok(c) => r is Ok && r->Ok_0@ == c,
                    Err(e) => r is Err && r->Err_0 == e,
                },
    {
        let cpus = available_cpus();
        let r = Self::parse_with_cpus(content, cpus);
        assert(match config_from_text(content@, cpus) {
            Ok(c) => r is Ok && r->Ok_0@ == c,
            Err(e) => r is Err && r->Err_0 == e,
        });
        r
    }
}


/// An empty configuration text gives the defaults.
pub proof fn lemma_empty_text_defaults(cpus: usize)
    ensures
        config_from_text(Seq::empty(), cpus) == Ok::<ConfigView, ConfigError>(default_config(cpus)),
{
    let pieces = split_on(Seq::<char>::empty(), '\n');
    assert(pieces =~= seq![Seq::<char>::empty()]);
    assert(lines(Seq::<char>::empty()) =~= Seq::<Seq<char>>::empty());
}

/// Text without `sep` is one piece.
proof fn lemma_split_single(a: Seq<char>, sep: char, cur: Seq<char>)
    requires
        forall|i: int| 0 <= i < a.len() ==> a[i] != sep,
    ensures
        crate::text::split_from(a, sep, cur) == seq![cur + a],
    decreases a.len(),
{
    if a.len() == 0 {
        assert(cur + a =~= cur);
    } else {
        lemma_split_single(a.drop_first(), sep, cur.push(a[0]));
        assert(cur.push(a[0]) + a.drop_first() =~= cur + a);
    }
}

/// A word of a setting line: not empty, without line feeds, and without
/// whitespace at either end.
pub open spec fn setting_word(w: Seq<char>) -> bool {
    &&& w.len() > 0
    &&& !crate::text::is_white(w[0])
    &&& !crate::text::is_white(w.last())
    &&& forall|i: int| 0 <= i < w.len() ==> #[trigger] w[i] != '\n'
}

/// A one-line text `key = value` sets `key` to `value` on top of the
/// defaults, when the key holds no `=` and does not begin with `#`.
proof fn lemma_setting_line(key: Seq<char>, value: Seq<char>, cpus: usize)
    requires
        setting_word(key),
        setting_word(value),
        forall|i: int| 0 <= i < key.len() ==> #[trigger] key[i] != '=',
        key[0] != '#',
    ensures
        config_from_text(key + " = "@ + value, cpus) == apply_setting(
            default_config(cpus),
            key,
            value,
            1,
            cpus,
        ),
{
    reveal_strlit(" = ");
    let s = key + " = "@ + value;
    let n = key.len() as int;
    assert(s =~= key + seq![' ', '=', ' '] + value);
    assert forall|i: int| 0 <= i < s.len() implies s[i] != '\n' by {
        if i < n {
            assert(s[i] == key[i]);
        } else if i >= n + 3 {
            assert(s[i] == value[i - n - 3]);
        }
    }
    lemma_split_single(s, '\n', seq![]);
    assert(seq![] + s =~= s);
    assert(lines(s) =~= seq![s]);
    // The line is its own trim.
    assert(s[0] == key[0]);
    assert(s.last() == value.last());
    assert(crate::text::trim_start(s) == s);
    assert(trim(s) == s);
    // The first `=` follows the key and a space.
    assert(crate::text::is_first_index(s, '=', n + 1)) by {
        assert forall|j: int| 0 <= j < n + 1 implies s[j] != '=' by {
            if j < n {
                assert(s[j] == key[j]);
            }
        }
    }
    let c = choose|i: int| crate::text::is_first_index(s, '=', i);
    if c < n + 1 {
        if c < n {
            assert(s[c] == key[c]);
        }
    }
    assert(c == n + 1);
    assert(index_of(s, '=') == Some(n + 1));
    // The key and the value trim to themselves.
    let kp = s.subrange(0, n + 1);
    assert(kp =~= key.push(' '));
    assert(kp[0] == key[0]);
    assert(crate::text::trim_start(kp) == kp);
    assert(kp.drop_last() =~= key);
    assert(crate::text::trim_end(kp) == crate::text::trim_end(key));
    assert(crate::text::trim_start(key) == key);
    assert(trim(kp) == key);
    let vp = s.subrange(n + 2, s.len() as int);
    assert(vp =~= seq![' '] + value);
    assert(vp.drop_first() =~= value);
    assert(crate::text::trim_start(vp) == crate::text::trim_start(value));
    assert(crate::text::trim_start(value) == value);
    assert(trim(vp) == value);
    let ls = lines(s);
    assert(ls.len() == 1 && ls[0] == s);
    assert(ls.drop_first() =~= Seq::<Seq<char>>::empty());
    let c0 = default_config(cpus);
    assert(apply_line(c0, s, 1, cpus) == apply_setting(c0, key, value, 1, cpus));
    match apply_line(c0, s, 1, cpus) {
        Ok(c2) => {
            assert(apply_lines(c2, ls.drop_first(), 2, cpus) == Ok::<ConfigView, ConfigError>(c2));
        },
        Err(e) => {},
    }
}

/// Decimal digits make a setting word.
proof fn lemma_decimal_word(n: nat)
    ensures
        setting_word(decimal(n)),
        decimal(n) != "auto"@,
{
    crate::text::lemma_decimal_spells(n);
    let d = decimal(n);
    assert(crate::text::is_digit(d[0]));
    assert(crate::text::is_digit(d.last())) by {
        assert(d.last() == d[d.len() - 1]);
    }
    assert forall|i: int| 0 <= i < d.len() implies #[trigger] d[i] != '\n' by {
        assert(crate::text::is_digit(d[i]));
    }
    reveal_strlit("auto");
    assert(d[0] != 'a');
}

/// Every number a numeric setting's type holds is read back from the line
/// `key = number`: the configuration is the defaults with that one setting
/// changed to the number. Sizes and counts take any `usize`, times any `u64`,
/// the port any `u16`.
pub proof fn lemma_numeric_settings_read(cpus: usize, size: usize, secs: u64, port: u16)
    ensures
        config_from_text("cache_size"@ + " = "@ + decimal(size as nat), cpus) == Ok::<ConfigView, ConfigError>(
            ConfigView { cache_size: size, ..default_config(cpus) },
        ),
        config_from_text("max_connections"@ + " = "@ + decimal(size as nat), cpus) == Ok::<ConfigView, ConfigError>(
            ConfigView { max_connections: size, ..default_config(cpus) },
        ),
        config_from_text("client_max_body_size"@ + " = "@ + decimal(size as nat), cpus) == Ok::<
            ConfigView,
            ConfigError,
        >(ConfigView { client_max_body_size: size, ..default_config(cpus) }),
        config_from_text("worker_connections"@ + " = "@ + decimal(size as nat), cpus) == Ok::<
            ConfigView,
            ConfigError,
        >(ConfigView { worker_connections: size, ..default_config(cpus) }),
        config_from_text("worker_processes"@ + " = "@ + decimal(size as nat), cpus) == Ok::<
            ConfigView,
            ConfigError,
        >(ConfigView { worker_processes: size, ..default_config(cpus) }),
        config_from_text("keep_alive_timeout"@ + " = "@ + decimal(secs as nat), cpus) == Ok::<
            ConfigView,
            ConfigError,
        >(ConfigView { keep_alive_timeout: secs, ..default_config(cpus) }),
        config_from_text("send_timeout"@ + " = "@ + decimal(secs as nat), cpus) == Ok::<ConfigView, ConfigError>(
            ConfigView { send_timeout: secs, ..default_config(cpus) },
        ),
        config_from_text("cache_ttl"@ + " = "@ + decimal(secs as nat), cpus) == Ok::<ConfigView, ConfigError>(
            ConfigView { cache_ttl: secs, ..default_config(cpus) },
        ),
        config_from_text("proxy_timeout"@ + " = "@ + decimal(secs as nat), cpus) == Ok::<ConfigView, ConfigError>(
            ConfigView { proxy_timeout: secs, ..default_config(cpus) },
        ),
        config_from_text("port"@ + " = "@ + decimal(port as nat), cpus) == Ok::<ConfigView, ConfigError>(
            ConfigView { port: port, ..default_config(cpus) },
        ),
{
    lemma_read_cache_size(cpus, size);
    lemma_read_max_connections(cpus, size);
    lemma_read_client_max_body_size(cpus, size);
    lemma_read_worker_connections(cpus, size);
    lemma_read_worker_processes(cpus, size);
    lemma_read_keep_alive_timeout(cpus, secs);
    lemma_read_send_timeout(cpus, secs);
    lemma_read_cache_ttl(cpus, secs);
    lemma_read_proxy_timeout(cpus, secs);
    lemma_read_port(cpus, port);
}

proof fn lemma_read_cache_size(cpus: usize, n: usize)
    ensures
        config_from_text("cache_size"@ + " = "@ + decimal(n as nat), cpus) == Ok::<ConfigView, ConfigError>(
            ConfigView { cache_size: n, ..default_config(cpus) },
        ),
{
    lemma_decimal_word(n as nat);
    reveal_strlit("cache_size");
    reveal_with_fuel(key_chars, 25);
    reveal_strlit("port");
    reveal_strlit("worker_processes");
    reveal_strlit("root");
    reveal_strlit("log");
    reveal_strlit("max_connections");
    reveal_strlit("keep_alive_timeout");
    reveal_strlit("send_timeout");
    reveal_strlit("client_max_body_size");
    reveal_strlit("worker_connections");
    reveal_strlit("cache_ttl");
    reveal_strlit("proxy_timeout");
    reveal_strlit("auto");
    lemma_setting_key("cache_size"@, decimal(n as nat), cpus);
    crate::text::lemma_parse_decimal(n as nat, usize::MAX as nat);
}

proof fn lemma_read_max_connections(cpus: usize, n: usize)
    ensures
        config_from_text("max_connections"@ + " = "@ + decimal(n as nat), cpus) == Ok::<ConfigView, ConfigError>(
            ConfigView { max_connections: n, ..default_config(cpus) },
        ),
{
    lemma_decimal_word(n as nat);
    reveal_strlit("max_connections");
    reveal_with_fuel(key_chars, 25);
    reveal_strlit("port");
    reveal_strlit("worker_processes");
    reveal_strlit("root");
    reveal_strlit("log");
    reveal_strlit("keep_alive_timeout");
    reveal_strlit("send_timeout");
    reveal_strlit("client_max_body_size");
    reveal_strlit("worker_connections");
    reveal_strlit("cache_size");
    reveal_strlit("cache_ttl");
    reveal_strlit("proxy_timeout");
    reveal_strlit("auto");
    lemma_setting_key("max_connections"@, decimal(n as nat), cpus);
    crate::text::lemma_parse_decimal(n as nat, usize::MAX as nat);
}

proof fn lemma_read_client_max_body_size(cpus: usize, n: usize)
    ensures
        config_from_text("client_max_body_size"@ + " = "@ + decimal(n as nat), cpus) == Ok::<ConfigView, ConfigError>(
            ConfigView { client_max_body_size: n, ..default_config(cpus) },
        ),
{
    lemma_decimal_word(n as nat);
    reveal_strlit("client_max_body_size");
    reveal_with_fuel(key_chars, 25);
    reveal_strlit("port");
    reveal_strlit("worker_processes");
    reveal_strlit("root");
    reveal_strlit("log");
    reveal_strlit("max_connections");
    reveal_strlit("keep_alive_timeout");
    reveal_strlit("send_timeout");
    reveal_strlit("worker_connections");
    reveal_strlit("cache_size");
    reveal_strlit("cache_ttl");
    reveal_strlit("proxy_timeout");
    reveal_strlit("auto");
    lemma_setting_key("client_max_body_size"@, decimal(n as nat), cpus);
    crate::text::lemma_parse_decimal(n as nat, usize::MAX as nat);
}

proof fn lemma_read_worker_connections(cpus: usize, n: usize)
    ensures
        config_from_text("worker_connections"@ + " = "@ + decimal(n as nat), cpus) == Ok::<ConfigView, ConfigError>(
            ConfigView { worker_connections: n, ..default_config(cpus) },
        ),
{
    lemma_decimal_word(n as nat);
    reveal_strlit("worker_connections");
    reveal_with_fuel(key_chars, 25);
    reveal_strlit("port");
    reveal_strlit("worker_processes");
    reveal_strlit("root");
    reveal_strlit("log");
    reveal_strlit("max_connections");
    reveal_strlit("keep_alive_timeout");
    reveal_strlit("send_timeout");
    reveal_strlit("client_max_body_size");
    reveal_strlit("cache_size");
    reveal_strlit("cache_ttl");
    reveal_strlit("proxy_timeout");
    reveal_strlit("auto");
    lemma_setting_key("worker_connections"@, decimal(n as nat), cpus);
    crate::text::lemma_parse_decimal(n as nat, usize::MAX as nat);
}

proof fn lemma_read_worker_processes(cpus: usize, n: usize)
    ensures
        config_from_text("worker_processes"@ + " = "@ + decimal(n as nat), cpus) == Ok::<ConfigView, ConfigError>(
            ConfigView { worker_processes: n, ..default_config(cpus) },
        ),
{
    lemma_decimal_word(n as nat);
    reveal_strlit("worker_processes");
    reveal_with_fuel(key_chars, 25);
    reveal_strlit("port");
    reveal_strlit("root");
    reveal_strlit("log");
    reveal_strlit("max_connections");
    reveal_strlit("keep_alive_timeout");
    reveal_strlit("send_timeout");
    reveal_strlit("client_max_body_size");
    reveal_strlit("worker_connections");
    reveal_strlit("cache_size");
    reveal_strlit("cache_ttl");
    reveal_strlit("proxy_timeout");
    reveal_strlit("auto");
    lemma_setting_key("worker_processes"@, decimal(n as nat), cpus);
    crate::text::lemma_parse_decimal(n as nat, usize::MAX as nat);
}

proof fn lemma_read_keep_alive_timeout(cpus: usize, n: u64)
    ensures
        config_from_text("keep_alive_timeout"@ + " = "@ + decimal(n as nat), cpus) == Ok::<ConfigView, ConfigError>(
            ConfigView { keep_alive_timeout: n, ..default_config(cpus) },
        ),
{
    lemma_decimal_word(n as nat);
    reveal_strlit("keep_alive_timeout");
    reveal_with_fuel(key_chars, 25);
    reveal_strlit("port");
    reveal_strlit("worker_processes");
    reveal_strlit("root");
    reveal_strlit("log");
    reveal_strlit("max_connections");
    reveal_strlit("send_timeout");
    reveal_strlit("client_max_body_size");
    reveal_strlit("worker_connections");
    reveal_strlit("cache_size");
    reveal_strlit("cache_ttl");
    reveal_strlit("proxy_timeout");
    reveal_strlit("auto");
    lemma_setting_key("keep_alive_timeout"@, decimal(n as nat), cpus);
    crate::text::lemma_parse_decimal(n as nat, u64::MAX as nat);
}

proof fn lemma_read_send_timeout(cpus: usize, n: u64)
    ensures
        config_from_text("send_timeout"@ + " = "@ + decimal(n as nat), cpus) == Ok::<ConfigView, ConfigError>(
            ConfigView { send_timeout: n, ..default_config(cpus) },
        ),
{
    lemma_decimal_word(n as nat);
    reveal_strlit("send_timeout");
    reveal_with_fuel(key_chars, 25);
    reveal_strlit("port");
    reveal_strlit("worker_processes");
    reveal_strlit("root");
    reveal_strlit("log");
    reveal_strlit("max_connections");
    reveal_strlit("keep_alive_timeout");
    reveal_strlit("client_max_body_size");
    reveal_strlit("worker_connections");
    reveal_strlit("cache_size");
    reveal_strlit("cache_ttl");
    reveal_strlit("proxy_timeout");
    reveal_strlit("auto");
    lemma_setting_key("send_timeout"@, decimal(n as nat), cpus);
    crate::text::lemma_parse_decimal(n as nat, u64::MAX as nat);
}

proof fn lemma_read_cache_ttl(cpus: usize, n: u64)
    ensures
        config_from_text("cache_ttl"@ + " = "@ + decimal(n as nat), cpus) == Ok::<ConfigView, ConfigError>(
            ConfigView { cache_ttl: n, ..default_config(cpus) },
        ),
{
    lemma_decimal_word(n as nat);
    reveal_strlit("cache_ttl");
    reveal_with_fuel(key_chars, 25);
    reveal_strlit("port");
    reveal_strlit("worker_processes");
    reveal_strlit("root");
    reveal_strlit("log");
    reveal_strlit("max_connections");
    reveal_strlit("keep_alive_timeout");
    reveal_strlit("send_timeout");
    reveal_strlit("client_max_body_size");
    reveal_strlit("worker_connections");
    reveal_strlit("cache_size");
    reveal_strlit("proxy_timeout");
    reveal_strlit("auto");
    lemma_setting_key("cache_ttl"@, decimal(n as nat), cpus);
    crate::text::lemma_parse_decimal(n as nat, u64::MAX as nat);
}

proof fn lemma_read_proxy_timeout(cpus: usize, n: u64)
    ensures
        config_from_text("proxy_timeout"@ + " = "@ + decimal(n as nat), cpus) == Ok::<ConfigView, ConfigError>(
            ConfigView { proxy_timeout: n, ..default_config(cpus) },
        ),
{
    lemma_decimal_word(n as nat);
    reveal_strlit("proxy_timeout");
    reveal_strlit("sendfile");
    reveal_strlit("tcp_nodelay");
    reveal_strlit("tcp_nopush");
    reveal_strlit("backlog");
    reveal_with_fuel(key_chars, 25);
    reveal_strlit("port");
    reveal_strlit("worker_processes");
    reveal_strlit("root");
    reveal_strlit("log");
    reveal_strlit("max_connections");
    reveal_strlit("keep_alive_timeout");
    reveal_strlit("send_timeout");
    reveal_strlit("client_max_body_size");
    reveal_strlit("worker_connections");
    reveal_strlit("cache_size");
    reveal_strlit("cache_ttl");
    reveal_strlit("auto");
    lemma_setting_key("proxy_timeout"@, decimal(n as nat), cpus);
    crate::text::lemma_parse_decimal(n as nat, u64::MAX as nat);
}

proof fn lemma_read_port(cpus: usize, n: u16)
    ensures
        config_from_text("port"@ + " = "@ + decimal(n as nat), cpus) == Ok::<ConfigView, ConfigError>(
            ConfigView { port: n, ..default_config(cpus) },
        ),
{
    lemma_decimal_word(n as nat);
    reveal_strlit("port");
    reveal_with_fuel(key_chars, 25);
    reveal_strlit("worker_processes");
    reveal_strlit("root");
    reveal_strlit("log");
    reveal_strlit("max_connections");
    reveal_strlit("keep_alive_timeout");
    reveal_strlit("send_timeout");
    reveal_strlit("client_max_body_size");
    reveal_strlit("worker_connections");
    reveal_strlit("cache_size");
    reveal_strlit("cache_ttl");
    reveal_strlit("proxy_timeout");
    reveal_strlit("auto");
    lemma_setting_key("port"@, decimal(n as nat), cpus);
    crate::text::lemma_parse_decimal(n as nat, 65535);
}

/// Small letters and underscores only.
spec fn key_chars(s: Seq<char>) -> bool
    decreases s.len(),
{
    s.len() == 0 || (('a' <= s[0] <= 'z' || s[0] == '_') && key_chars(s.drop_first()))
}

proof fn lemma_key_chars(s: Seq<char>)
    requires
        key_chars(s),
    ensures
        forall|i: int| 0 <= i < s.len() ==> 'a' <= #[trigger] s[i] <= 'z' || s[i] == '_',
    decreases s.len(),
{
    if s.len() > 0 {
        lemma_key_chars(s.drop_first());
        assert forall|i: int| 0 <= i < s.len() implies 'a' <= #[trigger] s[i] <= 'z' || s[i] == '_' by {
            if i > 0 {
                assert(s[i] == s.drop_first()[i - 1]);
            }
        }
    }
}

/// A setting key of small letters and underscores, ending in a letter, as a
/// line with a number.
proof fn lemma_setting_key(key: Seq<char>, value: Seq<char>, cpus: usize)
    requires
        key.len() > 0,
        key_chars(key),
        'a' <= key.last() <= 'z',
        setting_word(value),
    ensures
        config_from_text(key + " = "@ + value, cpus) == apply_setting(
            default_config(cpus),
            key,
            value,
            1,
            cpus,
        ),
{
    lemma_key_chars(key);
    assert(key.last() == key[key.len() - 1]);
    assert('a' <= key[0] <= 'z' || key[0] == '_');
    assert forall|i: int| 0 <= i < key.len() implies #[trigger] key[i] != '\n' by {
        assert('a' <= key[i] <= 'z' || key[i] == '_');
    }
    assert forall|i: int| 0 <= i < key.len() implies #[trigger] key[i] != '=' by {
        assert('a' <= key[i] <= 'z' || key[i] == '_');
    }
    lemma_setting_line(key, value, cpus);
}

/// Letters make a setting word.
proof fn lemma_letters_word(w: Seq<char>)
    requires
        w.len() > 0,
        key_chars(w),
        'a' <= w.last() <= 'z',
    ensures
        setting_word(w),
{
    lemma_key_chars(w);
    assert(w.last() == w[w.len() - 1]);
    assert('a' <= w[0] <= 'z' || w[0] == '_');
    assert forall|i: int| 0 <= i < w.len() implies #[trigger] w[i] != '\n' by {
        assert('a' <= w[i] <= 'z' || w[i] == '_');
    }
}

/// The switches read back `true` and `false`, `worker_processes = auto`
/// takes the processor count, and `root` and `log` take any value word as
/// it is, each on top of the defaults.
pub proof fn lemma_word_settings_read(cpus: usize, b: bool, w: Seq<char>)
    requires
        setting_word(w),
    ensures
        config_from_text("sendfile"@ + " = "@ + (if b { "true"@ } else { "false"@ }), cpus) == Ok::<
            ConfigView,
            ConfigError,
        >(ConfigView { sendfile: b, ..default_config(cpus) }),
        config_from_text("tcp_nodelay"@ + " = "@ + (if b { "true"@ } else { "false"@ }), cpus) == Ok::<
            ConfigView,
            ConfigError,
        >(ConfigView { tcp_nodelay: b, ..default_config(cpus) }),
        config_from_text("tcp_nopush"@ + " = "@ + (if b { "true"@ } else { "false"@ }), cpus) == Ok::<
            ConfigView,
            ConfigError,
        >(ConfigView { tcp_nopush: b, ..default_config(cpus) }),
        config_from_text("worker_processes"@ + " = "@ + "auto"@, cpus) == Ok::<ConfigView, ConfigError>(
            ConfigView { worker_processes: cpus, ..default_config(cpus) },
        ),
        config_from_text("root"@ + " = "@ + w, cpus) == Ok::<ConfigView, ConfigError>(
            ConfigView { root: w, ..default_config(cpus) },
        ),
        config_from_text("log"@ + " = "@ + w, cpus) == Ok::<ConfigView, ConfigError>(
            ConfigView { log: Some(w), ..default_config(cpus) },
        ),
{
    lemma_read_sendfile(cpus, b);
    lemma_read_tcp_nodelay(cpus, b);
    lemma_read_tcp_nopush(cpus, b);
    lemma_read_auto(cpus);
    lemma_read_root(cpus, w);
    lemma_read_log(cpus, w);
}

proof fn lemma_read_auto(cpus: usize)
    ensures
        config_from_text("worker_processes"@ + " = "@ + "auto"@, cpus) == Ok::<ConfigView, ConfigError>(
            ConfigView { worker_processes: cpus, ..default_config(cpus) },
        ),
{
    reveal_strlit("port");
    reveal_strlit("worker_processes");
    reveal_strlit("root");
    reveal_strlit("log");
    reveal_strlit("max_connections");
    reveal_strlit("keep_alive_timeout");
    reveal_strlit("send_timeout");
    reveal_strlit("client_max_body_size");
    reveal_strlit("worker_connections");
    reveal_strlit("cache_size");
    reveal_strlit("cache_ttl");
    reveal_strlit("sendfile");
    reveal_strlit("tcp_nodelay");
    reveal_strlit("tcp_nopush");
    reveal_strlit("backlog");
    reveal_strlit("proxy_timeout");
    reveal_strlit("auto");
    reveal_strlit("true");
    reveal_strlit("false");
    reveal_with_fuel(key_chars, 25);
    lemma_letters_word("auto"@);
    lemma_setting_key("worker_processes"@, "auto"@, cpus);
}

proof fn lemma_read_sendfile(cpus: usize, b: bool)
    ensures
        config_from_text("sendfile"@ + " = "@ + (if b { "true"@ } else { "false"@ }), cpus) == Ok::<
            ConfigView,
            ConfigError,
        >(ConfigView { sendfile: b, ..default_config(cpus) }),
{
    reveal_strlit("port");
    reveal_strlit("worker_processes");
    reveal_strlit("root");
    reveal_strlit("log");
    reveal_strlit("max_connections");
    reveal_strlit("keep_alive_timeout");
    reveal_strlit("send_timeout");
    reveal_strlit("client_max_body_size");
    reveal_strlit("worker_connections");
    reveal_strlit("cache_size");
    reveal_strlit("cache_ttl");
    reveal_strlit("sendfile");
    reveal_strlit("tcp_nodelay");
    reveal_strlit("tcp_nopush");
    reveal_strlit("backlog");
    reveal_strlit("proxy_timeout");
    reveal_strlit("auto");
    reveal_strlit("true");
    reveal_strlit("false");
    reveal_with_fuel(key_chars, 25);
    let w = if b { "true"@ } else { "false"@ };
    lemma_letters_word(w);
    lemma_setting_key("sendfile"@, w, cpus);
}

proof fn lemma_read_tcp_nodelay(cpus: usize, b: bool)
    ensures
        config_from_text("tcp_nodelay"@ + " = "@ + (if b { "true"@ } else { "false"@ }), cpus) == Ok::<
            ConfigView,
            ConfigError,
        >(ConfigView { tcp_nodelay: b, ..default_config(cpus) }),
{
    reveal_strlit("port");
    reveal_strlit("worker_processes");
    reveal_strlit("root");
    reveal_strlit("log");
    reveal_strlit("max_connections");
    reveal_strlit("keep_alive_timeout");
    reveal_strlit("send_timeout");
    reveal_strlit("client_max_body_size");
    reveal_strlit("worker_connections");
    reveal_strlit("cache_size");
    reveal_strlit("cache_ttl");
    reveal_strlit("sendfile");
    reveal_strlit("tcp_nodelay");
    reveal_strlit("tcp_nopush");
    reveal_strlit("backlog");
    reveal_strlit("proxy_timeout");
    reveal_strlit("auto");
    reveal_strlit("true");
    reveal_strlit("false");
    reveal_with_fuel(key_chars, 25);
    let w = if b { "true"@ } else { "false"@ };
    lemma_letters_word(w);
    lemma_setting_key("tcp_nodelay"@, w, cpus);
}

proof fn lemma_read_tcp_nopush(cpus: usize, b: bool)
    ensures
        config_from_text("tcp_nopush"@ + " = "@ + (if b { "true"@ } else { "false"@ }), cpus) == Ok::<
            ConfigView,
            ConfigError,
        >(ConfigView { tcp_nopush: b, ..default_config(cpus) }),
{
    reveal_strlit("port");
    reveal_strlit("worker_processes");
    reveal_strlit("root");
    reveal_strlit("log");
    reveal_strlit("max_connections");
    reveal_strlit("keep_alive_timeout");
    reveal_strlit("send_timeout");
    reveal_strlit("client_max_body_size");
    reveal_strlit("worker_connections");
    reveal_strlit("cache_size");
    reveal_strlit("cache_ttl");
    reveal_strlit("sendfile");
    reveal_strlit("tcp_nodelay");
    reveal_strlit("tcp_nopush");
    reveal_strlit("backlog");
    reveal_strlit("proxy_timeout");
    reveal_strlit("auto");
    reveal_strlit("true");
    reveal_strlit("false");
    reveal_with_fuel(key_chars, 25);
    let w = if b { "true"@ } else { "false"@ };
    lemma_letters_word(w);
    lemma_setting_key("tcp_nopush"@, w, cpus);
}

proof fn lemma_read_root(cpus: usize, w: Seq<char>)
    requires
        setting_word(w),
    ensures
        config_from_text("root"@ + " = "@ + w, cpus) == Ok::<ConfigView, ConfigError>(
            ConfigView { root: w, ..default_config(cpus) },
        ),
{
    reveal_strlit("port");
    reveal_strlit("worker_processes");
    reveal_strlit("root");
    reveal_strlit("log");
    reveal_strlit("max_connections");
    reveal_strlit("keep_alive_timeout");
    reveal_strlit("send_timeout");
    reveal_strlit("client_max_body_size");
    reveal_strlit("worker_connections");
    reveal_strlit("cache_size");
    reveal_strlit("cache_ttl");
    reveal_strlit("sendfile");
    reveal_strlit("tcp_nodelay");
    reveal_strlit("tcp_nopush");
    reveal_strlit("backlog");
    reveal_strlit("proxy_timeout");
    reveal_strlit("auto");
    reveal_strlit("true");
    reveal_strlit("false");
    reveal_with_fuel(key_chars, 25);
    lemma_setting_key("root"@, w, cpus);
}

proof fn lemma_read_log(cpus: usize, w: Seq<char>)
    requires
        setting_word(w),
    ensures
        config_from_text("log"@ + " = "@ + w, cpus) == Ok::<ConfigView, ConfigError>(
            ConfigView { log: Some(w), ..default_config(cpus) },
        ),
{
    reveal_strlit("port");
    reveal_strlit("worker_processes");
    reveal_strlit("root");
    reveal_strlit("log");
    reveal_strlit("max_connections");
    reveal_strlit("keep_alive_timeout");
    reveal_strlit("send_timeout");
    reveal_strlit("client_max_body_size");
    reveal_strlit("worker_connections");
    reveal_strlit("cache_size");
    reveal_strlit("cache_ttl");
    reveal_strlit("sendfile");
    reveal_strlit("tcp_nodelay");
    reveal_strlit("tcp_nopush");
    reveal_strlit("backlog");
    reveal_strlit("proxy_timeout");
    reveal_strlit("auto");
    reveal_strlit("true");
    reveal_strlit("false");
    reveal_with_fuel(key_chars, 25);
    lemma_setting_key("log"@, w, cpus);
}

} // verus!
