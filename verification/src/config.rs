//! The settings of `record` and `replay`, from command line and configuration file.
use crate::cli::RewriteMode;
use crate::paths;
use crate::pattern;
use crate::rewrite;
use crate::rewrite::RewriteRule;
use crate::text;
use vstd::prelude::*;

verus! {

/// The name of the configuration file in a data directory.
pub const CONFIG_FILE_NAME: &'static str = "tape-config.toml";

/// The port of `record` and `replay`: one for both, so that an app keeps its address.
pub const DEFAULT_PORT: u16 = 8888;

/// The base of absolute rewriting where none is given.
pub const DEFAULT_ABSOLUTE_BASE: &'static str = "http://127.0.0.1:8888/";

/// What is wrong with a configuration.
#[derive(Debug)]
pub enum ConfigError {
    /// A pattern of the record filter is no regular expression.
    InvalidRegex { pattern: String },
    /// The way of rewriting has no such name.
    InvalidRewrite { value: String },
    /// The data directory does not exist.
    MissingDir { dir: String },
}

/// The model of a configuration error.
pub enum Fault {
    /// A pattern is no regular expression.
    Regex(Seq<char>),
    /// The way of rewriting has no such name.
    Rewrite(Seq<char>),
    /// The data directory does not exist.
    Dir(Seq<char>),
}

impl View for ConfigError {
    type V = Fault;

    open spec fn view(&self) -> Fault {
        match self {
            ConfigError::InvalidRegex { pattern } => Fault::Regex(pattern@),
            ConfigError::InvalidRewrite { value } => Fault::Rewrite(value@),
            ConfigError::MissingDir { dir } => Fault::Dir(dir@),
        }
    }
}

/// The message for a configuration error.
pub open spec fn fault_message(fault: Fault) -> Seq<char> {
    match fault {
        Fault::Regex(pattern) => "配置中的正则非法: "@ + pattern,
        Fault::Rewrite(value) => "配置文件 [replay] 的 rewrite 取值非法: "@ + value
            + "（可选 relative / absolute / none）"@,
        Fault::Dir(dir) => "数据目录不存在: "@ + dir
            + "（请先运行 tape record 录制，或用 --dir 指定已录制目录）"@,
    }
}

impl ConfigError {
    /// The message for the user.
    pub fn message(&self) -> (r: String)
        ensures
            r@ == fault_message(self@),
    {
        let mut out: Vec<char>;
        match self {
            ConfigError::InvalidRegex { pattern } => {
                out = text::chars_of("配置中的正则非法: ");
                text::push_str(&mut out, pattern);
            },
            ConfigError::InvalidRewrite { value } => {
                out = text::chars_of("配置文件 [replay] 的 rewrite 取值非法: ");
                text::push_str(&mut out, value);
                text::push_str(&mut out, "（可选 relative / absolute / none）");
            },
            ConfigError::MissingDir { dir } => {
                out = text::chars_of("数据目录不存在: ");
                text::push_str(&mut out, dir);
                text::push_str(
                    &mut out,
                    "（请先运行 tape record 录制，或用 --dir 指定已录制目录）",
                );
            },
        }
        text::string_of(&out)
    }
}

// ---------------------------------------------------------------------------
// The record filter
// ---------------------------------------------------------------------------

/// The text without leading repetitions of `pat`.
pub open spec fn without_leading_text(s: Seq<char>, pat: Seq<char>) -> Seq<char>
    decreases s.len(),
{
    if pat.len() > 0 && pat.is_prefix_of(s) {
        without_leading_text(s.skip(pat.len() as int), pat)
    } else {
        s
    }
}

/// A host of the filter in normal form: without white space around it, in lower case, and
/// without a scheme.
pub open spec fn normal_host(h: Seq<char>) -> Seq<char> {
    without_leading_text(
        without_leading_text(text::lowered(text::trimmed(h)), "http://"@),
        "https://"@,
    )
}

/// The hosts of a list in normal form, without the empty ones.
pub open spec fn normal_hosts(hosts: Seq<Seq<char>>) -> Seq<Seq<char>> {
    text::nonempty(hosts.map_values(|h: Seq<char>| normal_host(h)))
}

/// Removes leading repetitions of `pat`.
fn trim_leading_text<'a>(s: &'a [char], pat: &str) -> (r: &'a [char])
    requires
        pat@.len() > 0,
    ensures
        r@ == without_leading_text(s@, pat@),
{
    let mut rest = s;
    loop
        invariant
            pat@.len() > 0,
            without_leading_text(s@, pat@) == without_leading_text(rest@, pat@),
        decreases rest@.len(),
    {
        match text::strip(rest, pat) {
            Some(r) => rest = r,
            None => return rest,
        }
    }
}

/// Puts the hosts of the filter in normal form.
pub fn normalize_hosts(hosts: Vec<String>) -> (r: Vec<String>)
    ensures
        text::texts(r@) == normal_hosts(text::texts(hosts@)),
{
    let ghost all = text::texts(hosts@).map_values(|h: Seq<char>| normal_host(h));
    let n: usize = hosts.len();
    let mut out: Vec<String> = Vec::new();
    let mut i: usize = 0;
    assert(text::texts(out@) =~= text::nonempty(all.take(0)));
    proof {
        reveal_strlit("http://");
        reveal_strlit("https://");
    }
    while i < n
        invariant
            i <= n == hosts@.len(),
            all == text::texts(hosts@).map_values(|h: Seq<char>| normal_host(h)),
            "http://"@.len() > 0,
            "https://"@.len() > 0,
            text::texts(out@) == text::nonempty(all.take(i as int)),
        decreases n - i,
    {
        let low = text::lower_string(&text::trim_string(&hosts[i]));
        let cs = text::chars_of(&low);
        let host = text::string_of(
            trim_leading_text(trim_leading_text(&cs, "http://"), "https://"),
        );
        proof {
            assert(all.take(i + 1).drop_last() =~= all.take(i as int));
            assert(all.take(i + 1).last() == host@);
        }
        if !host.as_str().is_empty() {
            proof {
                text::lemma_texts_push(out@, host);
            }
            out.push(host);
        }
        i += 1;
    }
    assert(all.take(n as int) =~= all);
    out
}

/// The rules of the record filter: hosts, and patterns that compile.
pub struct RecordFilter {
    hosts: Vec<String>,
    patterns: Vec<String>,
}

/// Whether a filter lets an authority (`host:port`) through. A host without a port stands for
/// all its ports, one with a port for that port; a pattern is matched against the whole
/// authority; no rules let everything through.
pub open spec fn lets_through(
    hosts: Seq<Seq<char>>,
    patterns: Seq<Seq<char>>,
    authority: Seq<char>,
) -> bool {
    let low = text::lowered(authority);
    ||| hosts.len() == 0 && patterns.len() == 0
    ||| hosts.contains(low)
    ||| hosts.contains(text::before(low, ':', ':'))
    ||| exists|i: int| 0 <= i < patterns.len() && pattern::regex_matches(#[trigger] patterns[i], low)
}

/// The index of the first pattern that does not compile; the length where all do.
pub open spec fn first_invalid(patterns: Seq<Seq<char>>) -> int
    decreases patterns.len(),
{
    if patterns.len() == 0 || !pattern::regex_compiles(patterns[0]) {
        0
    } else {
        1 + first_invalid(patterns.drop_first())
    }
}

/// The outcome of building a filter: refused with the first pattern that does not compile, or
/// with the hosts in normal form and the patterns as they are.
pub open spec fn is_built(
    hosts: Seq<Seq<char>>,
    patterns: Seq<Seq<char>>,
    r: Result<RecordFilter, ConfigError>,
) -> bool {
    let bad = first_invalid(patterns);
    match r {
        Ok(f) => bad == patterns.len() && f.host_rules() == normal_hosts(hosts)
            && f.pattern_rules() == patterns,
        Err(e) => bad < patterns.len() && e@ == Fault::Regex(patterns[bad]),
    }
}

/// The hosts of the `[record]` table.
pub open spec fn section_hosts(section: Option<RecordFilterSection>) -> Seq<Seq<char>> {
    match section {
        Some(s) => text::texts(s.include_hosts@),
        None => Seq::empty(),
    }
}

/// The patterns of the `[record]` table.
pub open spec fn section_patterns(section: Option<RecordFilterSection>) -> Seq<Seq<char>> {
    match section {
        Some(s) => text::texts(s.include_hosts_regex@),
        None => Seq::empty(),
    }
}

/// The first pattern that does not compile is the one with none before it.
proof fn lemma_first_invalid(patterns: Seq<Seq<char>>, k: int)
    requires
        0 <= k <= patterns.len(),
        forall|j: int| 0 <= j < k ==> pattern::regex_compiles(#[trigger] patterns[j]),
        k < patterns.len() ==> !pattern::regex_compiles(patterns[k]),
    ensures
        first_invalid(patterns) == k,
    decreases patterns.len(),
{
    if k > 0 {
        let rest = patterns.drop_first();
        assert forall|j: int| 0 <= j < k - 1 implies pattern::regex_compiles(
            #[trigger] rest[j],
        ) by {
            assert(rest[j] == patterns[j + 1]);
        }
        assert(pattern::regex_compiles(patterns[0]));
        lemma_first_invalid(rest, k - 1);
    }
}

impl RecordFilter {
    #[verifier::type_invariant]
    spec fn all_compile(self) -> bool {
        forall|i: int|
            0 <= i < self.patterns@.len() ==> pattern::regex_compiles(
                (#[trigger] self.patterns@[i])@,
            )
    }

    /// The hosts of the filter.
    pub closed spec fn host_rules(&self) -> Seq<Seq<char>> {
        text::texts(self.hosts@)
    }

    /// The patterns of the filter.
    pub closed spec fn pattern_rules(&self) -> Seq<Seq<char>> {
        text::texts(self.patterns@)
    }

    /// The filter without rules: it lets everything through.
    pub fn all() -> (r: Self)
        ensures
            r.host_rules() == Seq::<Seq<char>>::empty(),
            r.pattern_rules() == Seq::<Seq<char>>::empty(),
    {
        let r = RecordFilter { hosts: Vec::new(), patterns: Vec::new() };
        assert(text::texts(r.hosts@) =~= Seq::<Seq<char>>::empty());
        assert(text::texts(r.patterns@) =~= Seq::<Seq<char>>::empty());
        r
    }

    /// A filter with the given hosts and patterns. It is refused with the first pattern that
    /// does not compile.
    pub fn with_rules(hosts: Vec<String>, regexes: Vec<String>) -> (r: Result<Self, ConfigError>)
        ensures
            is_built(text::texts(hosts@), text::texts(regexes@), r),
    {
        let ghost all = text::texts(regexes@);
        let hosts = normalize_hosts(hosts);
        let n: usize = regexes.len();
        let mut i: usize = 0;
        while i < n
            invariant
                i <= n == regexes@.len(),
                all == text::texts(regexes@),
                forall|j: int| 0 <= j < i ==> pattern::regex_compiles(#[trigger] all[j]),
            decreases n - i,
        {
            assert(all[i as int] == regexes@[i as int]@);
            if pattern::compile(&regexes[i]).is_err() {
                proof {
                    lemma_first_invalid(all, i as int);
                }
                return Err(ConfigError::InvalidRegex { pattern: regexes[i].clone() });
            }
            i += 1;
        }
        proof {
            lemma_first_invalid(all, n as int);
            assert forall|j: int| 0 <= j < regexes@.len() implies pattern::regex_compiles(
                (#[trigger] regexes@[j])@,
            ) by {
                assert(all[j] == regexes@[j]@);
            }
        }
        Ok(RecordFilter { hosts, patterns: regexes })
    }

    /// The filter of a configuration file; without a `[record]` table it has no rules.
    pub fn from_section(section: Option<RecordFilterSection>) -> (r: Result<Self, ConfigError>)
        ensures
            is_built(section_hosts(section), section_patterns(section), r),
    {
        match section {
            Some(s) => Self::with_rules(s.include_hosts, s.include_hosts_regex),
            None => {
                assert(normal_hosts(Seq::empty()) =~= Seq::<Seq<char>>::empty());
                Ok(Self::all())
            },
        }
    }

    /// Whether the filter has no rules.
    pub fn is_all(&self) -> (r: bool)
        ensures
            r == (self.host_rules().len() == 0 && self.pattern_rules().len() == 0),
    {
        self.hosts.len() == 0 && self.patterns.len() == 0
    }

    /// Whether the filter lets an authority (`host:port`) through.
    pub fn matches(&self, authority: &str) -> (r: bool)
        ensures
            r == lets_through(self.host_rules(), self.pattern_rules(), authority@),
    {
        proof {
            use_type_invariant(self);
        }
        if self.is_all() {
            return true;
        }
        let low = text::lower_string(authority);
        let cs = text::chars_of(&low);
        let end: usize = text::index_of_either(&cs, ':', ':');
        let host = text::string_of(text::take(&cs, end));
        if text::listed(&self.hosts, &low) || text::listed(&self.hosts, &host) {
            return true;
        }
        let n: usize = self.patterns.len();
        let mut i: usize = 0;
        while i < n
            invariant
                i <= n == self.patterns@.len(),
                self.all_compile(),
                low@ == text::lowered(authority@),
                forall|j: int|
                    0 <= j < i ==> !pattern::regex_matches(
                        #[trigger] self.pattern_rules()[j],
                        low@,
                    ),
            decreases n - i,
        {
            assert(self.pattern_rules()[i as int] == self.patterns@[i as int]@);
            if pattern::is_match(&self.patterns[i], &low) {
                return true;
            }
            i += 1;
        }
        false
    }
}

// ---------------------------------------------------------------------------
// The configuration file
// ---------------------------------------------------------------------------

/// The `[record]` table of a configuration file.
#[derive(Debug)]
pub struct RecordFilterSection {
    pub include_hosts: Vec<String>,
    pub include_hosts_regex: Vec<String>,
}

/// The `[replay]` table of a configuration file. What is missing has its default.
#[derive(Debug)]
pub struct ReplaySection {
    pub port: Option<u16>,
    pub rewrite: Option<String>,
    pub absolute_base: Option<String>,
}

/// The settings of `record`.
pub struct RecordConfig {
    pub port: u16,
    pub dir: String,
    pub rewrite_on_record: bool,
    pub filter: RecordFilter,
    /// The configuration file that was used, if any.
    pub config_path: Option<String>,
}

/// The settings of `replay`.
pub struct ReplayConfig {
    pub port: u16,
    pub dir: String,
    pub rewrite: RewriteRule,
    /// The configuration file that was used, if any.
    pub config_path: Option<String>,
}

/// The configuration file to use: the one that was named or, where none was, the one in the
/// data directory, if it is there.
pub open spec fn config_file(
    named: Option<Seq<char>>,
    dir: Seq<char>,
    default_exists: bool,
) -> Option<Seq<char>> {
    match named {
        Some(path) => Some(path),
        None => if default_exists {
            Some(paths::joined(dir, CONFIG_FILE_NAME@))
        } else {
            None
        },
    }
}

/// The path of the configuration file in a data directory.
pub fn default_config_path(dir: &str) -> (r: String)
    ensures
        r@ == paths::joined(dir@, CONFIG_FILE_NAME@),
{
    paths::join(dir, CONFIG_FILE_NAME)
}

/// The configuration file to use. `default_exists` tells whether the data directory holds one.
pub fn resolve_config_path(
    config_path: Option<String>,
    dir: &str,
    default_exists: bool,
) -> (r: Option<String>)
    ensures
        text::opt_text(r) == config_file(text::opt_text(config_path), dir@, default_exists),
{
    match config_path {
        Some(path) => Some(path),
        None => if default_exists {
            Some(default_config_path(dir))
        } else {
            None
        },
    }
}

/// The settings of `record`, from the command line and the `[record]` table of the
/// configuration file `config_path`.
pub fn record_config(
    port: u16,
    dir: String,
    rewrite_on_record: bool,
    config_path: Option<String>,
    section: Option<RecordFilterSection>,
) -> (r: Result<RecordConfig, ConfigError>)
    ensures
        match r {
            Ok(c) => {
                &&& c.port == port
                &&& c.dir == dir
                &&& c.rewrite_on_record == rewrite_on_record
                &&& c.config_path == config_path
                &&& is_built(
                    section_hosts(section),
                    section_patterns(section),
                    Ok::<RecordFilter, ConfigError>(c.filter),
                )
            },
            Err(e) => is_built(
                section_hosts(section),
                section_patterns(section),
                Err::<RecordFilter, ConfigError>(e),
            ),
        },
{
    match RecordFilter::from_section(section) {
        Ok(filter) => Ok(RecordConfig { port, dir, rewrite_on_record, filter, config_path }),
        Err(e) => Err(e),
    }
}

/// The way of rewriting with a name, whatever its case and the white space around it.
pub open spec fn mode_named(value: Seq<char>) -> Option<RewriteMode> {
    let name = text::lowered(text::trimmed(value));
    if name == "relative"@ {
        Some(RewriteMode::Relative)
    } else if name == "absolute"@ {
        Some(RewriteMode::Absolute)
    } else if name == "none"@ {
        Some(RewriteMode::Keep)
    } else {
        None
    }
}

/// Reads the name of a way of rewriting.
pub fn parse_rewrite_mode(value: &str) -> (r: Result<RewriteMode, ConfigError>)
    ensures
        match r {
            Ok(mode) => mode_named(value@) == Some(mode),
            Err(e) => mode_named(value@) is None && e@ == Fault::Rewrite(
                text::lowered(text::trimmed(value@)),
            ),
        },
{
    let name = text::lower_string(&text::trim_string(value));
    if text::same(&name, "relative") {
        Ok(RewriteMode::Relative)
    } else if text::same(&name, "absolute") {
        Ok(RewriteMode::Absolute)
    } else if text::same(&name, "none") {
        Ok(RewriteMode::Keep)
    } else {
        Err(ConfigError::InvalidRewrite { value: name })
    }
}

/// The rule for a way of rewriting.
pub open spec fn rule_for(mode: RewriteMode, base: Seq<char>) -> rewrite::Rule {
    match mode {
        RewriteMode::Relative => rewrite::Rule::Relative,
        RewriteMode::Absolute => rewrite::Rule::Absolute { base },
        RewriteMode::Keep => rewrite::Rule::Keep,
    }
}

/// The first of three settings that is there: command line, configuration file, default.
pub open spec fn first_set<T>(named: Option<T>, configured: Option<T>, default: T) -> T {
    match named {
        Some(v) => v,
        None => match configured {
            Some(v) => v,
            None => default,
        },
    }
}

/// The way of rewriting of `replay`; `None` where the configuration file names one that does
/// not exist and the command line names none.
pub open spec fn replay_mode(
    named: Option<RewriteMode>,
    configured: Option<Seq<char>>,
) -> Option<RewriteMode> {
    match named {
        Some(mode) => Some(mode),
        None => match configured {
            Some(value) => mode_named(value),
            None => Some(RewriteMode::Relative),
        },
    }
}

/// The port of the `[replay]` table.
pub open spec fn section_port(section: Option<ReplaySection>) -> Option<u16> {
    match section {
        Some(s) => s.port,
        None => None,
    }
}

/// The way of rewriting of the `[replay]` table.
pub open spec fn section_rewrite(section: Option<ReplaySection>) -> Option<Seq<char>> {
    match section {
        Some(s) => text::opt_text(s.rewrite),
        None => None,
    }
}

/// The base of the `[replay]` table.
pub open spec fn section_base(section: Option<ReplaySection>) -> Option<Seq<char>> {
    match section {
        Some(s) => text::opt_text(s.absolute_base),
        None => None,
    }
}

/// The settings of `replay`: what the command line gives comes before what the configuration
/// file `config_path` gives, and that before the defaults. `dir_exists` tells whether the data
/// directory is there; without it there is nothing to replay.
pub fn replay_config(
    port: Option<u16>,
    dir: String,
    dir_exists: bool,
    mode: Option<RewriteMode>,
    absolute_base: Option<String>,
    config_path: Option<String>,
    section: Option<ReplaySection>,
) -> (r: Result<ReplayConfig, ConfigError>)
    ensures
        match r {
            Ok(c) => {
                &&& dir_exists
                &&& replay_mode(mode, section_rewrite(section)) is Some
                &&& c.port == first_set(port, section_port(section), DEFAULT_PORT)
                &&& c.dir == dir
                &&& c.config_path == config_path
                &&& c.rewrite@ == rule_for(
                    replay_mode(mode, section_rewrite(section))->0,
                    first_set(
                        text::opt_text(absolute_base),
                        section_base(section),
                        DEFAULT_ABSOLUTE_BASE@,
                    ),
                )
            },
            Err(e) => if dir_exists {
                replay_mode(mode, section_rewrite(section)) is None && e@ == Fault::Rewrite(
                    text::lowered(text::trimmed(section_rewrite(section)->0)),
                )
            } else {
                e@ == Fault::Dir(dir@)
            },
        },
{
    if !dir_exists {
        return Err(ConfigError::MissingDir { dir });
    }
    let section = match section {
        Some(s) => s,
        None => ReplaySection { port: None, rewrite: None, absolute_base: None },
    };
    let port: u16 = match port {
        Some(p) => p,
        None => match section.port {
            Some(p) => p,
            None => DEFAULT_PORT,
        },
    };
    let mode = match mode {
        Some(m) => m,
        None => match &section.rewrite {
            Some(value) => match parse_rewrite_mode(value) {
                Ok(m) => m,
                Err(e) => return Err(e),
            },
            None => RewriteMode::Relative,
        },
    };
    let base = match absolute_base {
        Some(b) => b,
        None => match section.absolute_base {
            Some(b) => b,
            None => text::owned(DEFAULT_ABSOLUTE_BASE),
        },
    };
    let rewrite = match mode {
        RewriteMode::Relative => RewriteRule::Relative,
        RewriteMode::Absolute => RewriteRule::Absolute { base },
        RewriteMode::Keep => RewriteRule::Keep,
    };
    Ok(ReplayConfig { port, dir, rewrite, config_path })
}

// ---------------------------------------------------------------------------
// Laws
// ---------------------------------------------------------------------------

/// The filter takes no account of the case of an authority.
pub proof fn law_filter_ignores_case(
    hosts: Seq<Seq<char>>,
    patterns: Seq<Seq<char>>,
    a: Seq<char>,
    b: Seq<char>,
)
    requires
        text::lowered(a) == text::lowered(b),
    ensures
        lets_through(hosts, patterns, a) == lets_through(hosts, patterns, b),
{
}

/// A host without a port in the filter lets all ports of the host through.
pub proof fn law_host_rule_covers_every_port(
    hosts: Seq<Seq<char>>,
    patterns: Seq<Seq<char>>,
    host: Seq<char>,
    port: Seq<char>,
)
    requires
        hosts.contains(text::lowered(host)),
        !host.contains(':'),
    ensures
        lets_through(hosts, patterns, host),
        lets_through(hosts, patterns, host + ":"@ + port),
{
    let authority = host + ":"@ + port;
    let low = text::lowered(authority);
    let n = host.len() as int;
    reveal_strlit(":");
    assert forall|j: int| 0 <= j < n implies low[j] != ':' by {
        assert(authority[j] == host[j]);
        assert(host.contains(host[j]));
        assert(low[j] == text::lower(host[j]));
    }
    assert(authority[n] == ':');
    assert(low[n] == ':');
    text::lemma_upto_is(low, ':', ':', n);
    assert(low.take(n) =~= text::lowered(host));
}

/// Two kinds of rules let through what either does.
pub proof fn law_rules_add_up(
    hosts: Seq<Seq<char>>,
    patterns: Seq<Seq<char>>,
    authority: Seq<char>,
)
    requires
        hosts.len() > 0,
        patterns.len() > 0,
    ensures
        lets_through(hosts, patterns, authority) == (lets_through(
            hosts,
            Seq::empty(),
            authority,
        ) || lets_through(Seq::empty(), patterns, authority)),
{
}

/// A rule of hosts lets through the authorities that it names and no others: the host with its
/// port, or the host on any port. Without rules everything is let through, and a pattern lets
/// through what it matches in lower case.
pub proof fn law_filter_is_strict(
    hosts: Seq<Seq<char>>,
    patterns: Seq<Seq<char>>,
    host: Seq<char>,
    port: Seq<char>,
)
    requires
        !host.contains(':'),
    ensures
        ({
            let none = Seq::<Seq<char>>::empty();
            let authority = host + ":"@ + port;
            let low = text::lowered(authority);
            &&& lets_through(none, none, authority)
            &&& hosts.len() > 0 ==> (lets_through(hosts, none, authority) <==> hosts.contains(low)
                || hosts.contains(text::lowered(host)))
            &&& hosts.len() > 0 ==> (lets_through(hosts, none, host) <==> hosts.contains(
                text::lowered(host),
            ))
            &&& patterns.len() > 0 ==> (lets_through(none, patterns, authority) <==> exists|i: int|
                0 <= i < patterns.len() && pattern::regex_matches(#[trigger] patterns[i], low))
        }),
{
    let authority = host + ":"@ + port;
    let low = text::lowered(authority);
    let n = host.len() as int;
    reveal_strlit(":");
    assert forall|j: int| 0 <= j < n implies low[j] != ':' by {
        assert(authority[j] == host[j]);
        assert(host.contains(host[j]));
        assert(low[j] == text::lower(host[j]));
    }
    assert(authority[n] == ':');
    assert(low[n] == ':');
    text::lemma_upto_is(low, ':', ':', n);
    assert(low.take(n) =~= text::lowered(host));
    let bare = text::lowered(host);
    assert forall|j: int| 0 <= j < n implies bare[j] != ':' by {
        assert(host.contains(host[j]));
        assert(bare[j] == text::lower(host[j]));
    }
    text::lemma_upto(bare, ':', ':');
    assert(bare.take(n) =~= bare);
}

/// A host of the filter counts without white space around it, in lower case, and without its
/// scheme, so that it can be copied from an address.
pub proof fn law_hosts_are_normal(a: Seq<char>, h: Seq<char>, b: Seq<char>)
    requires
        forall|i: int| 0 <= i < a.len() ==> text::is_space(#[trigger] a[i]),
        forall|i: int| 0 <= i < b.len() ==> text::is_space(#[trigger] b[i]),
        h.len() > 0,
        !text::is_space(h[0]),
        !text::is_space(h.last()),
        !("http://"@.is_prefix_of(text::lowered(h))),
        !("https://"@.is_prefix_of(text::lowered(h))),
    ensures
        normal_host(a + h + b) == text::lowered(h),
        normal_host(a + ("http://"@ + h) + b) == text::lowered(h),
        normal_host(a + ("https://"@ + h) + b) == text::lowered(h),
{
    reveal_strlit("http://");
    reveal_strlit("https://");
    let low = text::lowered(h);
    let plain = "http://"@ + h;
    let secure = "https://"@ + h;
    text::law_trimmed(a, h, b);
    assert(plain.last() == h.last() && secure.last() == h.last());
    text::law_trimmed(a, plain, b);
    text::law_trimmed(a, secure, b);
    assert(text::lowered(plain) =~= "http://"@ + low);
    assert(text::lowered(secure) =~= "https://"@ + low);
    assert("http://"@.is_prefix_of("http://"@ + low));
    assert("https://"@.is_prefix_of("https://"@ + low));
    assert(("http://"@ + low).skip(7) =~= low);
    assert(("https://"@ + low).skip(8) =~= low);
    let s = "https://"@ + low;
    assert(!("http://"@.is_prefix_of(s))) by {
        assert(s[4] == 's');
        assert("http://"@[4] == ':');
    }
    reveal_with_fuel(without_leading_text, 3);
}

/// The hosts of the filter are those of the list in normal form, in their order, but for the
/// empty ones.
pub proof fn law_empty_hosts_are_dropped(hosts: Seq<Seq<char>>)
    ensures
        normal_hosts(hosts) == hosts.map_values(|h: Seq<char>| normal_host(h)).filter(
            |h: Seq<char>| h.len() > 0,
        ),
{
    text::law_nonempty(hosts.map_values(|h: Seq<char>| normal_host(h)));
}

/// A filter is built exactly where all its patterns compile; else the first that does not is
/// named.
pub proof fn law_invalid_patterns_are_refused(
    hosts: Seq<Seq<char>>,
    patterns: Seq<Seq<char>>,
    r: Result<RecordFilter, ConfigError>,
    k: int,
)
    requires
        is_built(hosts, patterns, r),
        0 <= k <= patterns.len(),
        forall|j: int| 0 <= j < k ==> pattern::regex_compiles(#[trigger] patterns[j]),
    ensures
        k == patterns.len() ==> (r matches Ok(f) && f.pattern_rules() == patterns && f.host_rules()
            == hosts.map_values(|h: Seq<char>| normal_host(h)).filter(
            |h: Seq<char>| h.len() > 0,
        )),
        k < patterns.len() && !pattern::regex_compiles(patterns[k]) ==> (r matches Err(e) && e@
            == Fault::Regex(patterns[k])),
{
    if k == patterns.len() || !pattern::regex_compiles(patterns[k]) {
        lemma_first_invalid(patterns, k);
    }
    law_empty_hosts_are_dropped(hosts);
}

/// The ways of rewriting have the names `relative`, `absolute` and `none`, whatever their case
/// and the white space around them, and no others.
pub proof fn law_modes_are_named(a: Seq<char>, name: Seq<char>, b: Seq<char>)
    requires
        forall|i: int| 0 <= i < a.len() ==> text::is_space(#[trigger] a[i]),
        forall|i: int| 0 <= i < b.len() ==> text::is_space(#[trigger] b[i]),
        name.len() > 0 ==> !text::is_space(name[0]) && !text::is_space(name.last()),
    ensures
        ({
            let low = text::lowered(name);
            let mode = mode_named(a + name + b);
            &&& mode == Some(RewriteMode::Relative) <==> low == "relative"@
            &&& mode == Some(RewriteMode::Absolute) <==> low == "absolute"@
            &&& mode == Some(RewriteMode::Keep) <==> low == "none"@
        }),
{
    text::law_trimmed(a, name, b);
    reveal_strlit("relative");
    reveal_strlit("absolute");
    reveal_strlit("none");
    assert("relative"@[0] == 'r' && "absolute"@[0] == 'a' && "none"@[0] == 'n');
}

/// What the command line gives comes before what the file gives, and that before the defaults:
/// the port 8888, relative links, and this machine as the base of absolute ones.
pub proof fn law_command_line_comes_first(
    port: Option<u16>,
    mode: Option<RewriteMode>,
    base: Option<Seq<char>>,
    s: ReplaySection,
    section: Option<ReplaySection>,
)
    ensures
        port is Some ==> first_set(port, section_port(section), DEFAULT_PORT) == port->0,
        port is None && s.port is Some ==> first_set(port, section_port(Some(s)), DEFAULT_PORT)
            == s.port->0,
        port is None && s.port is None ==> first_set(port, section_port(Some(s)), DEFAULT_PORT)
            == 8888,
        first_set(None, section_port(None), DEFAULT_PORT) == 8888,
        mode is Some ==> replay_mode(mode, section_rewrite(section)) == mode,
        mode is None && s.rewrite is Some ==> replay_mode(mode, section_rewrite(Some(s)))
            == mode_named(s.rewrite->0@),
        mode is None && s.rewrite is None ==> replay_mode(mode, section_rewrite(Some(s))) == Some(
            RewriteMode::Relative,
        ),
        replay_mode(None, section_rewrite(None)) == Some(RewriteMode::Relative),
        base is Some ==> first_set(base, section_base(section), DEFAULT_ABSOLUTE_BASE@) == base->0,
        base is None && s.absolute_base is Some ==> first_set(
            base,
            section_base(Some(s)),
            DEFAULT_ABSOLUTE_BASE@,
        ) == s.absolute_base->0@,
        base is None && s.absolute_base is None ==> first_set(
            base,
            section_base(Some(s)),
            DEFAULT_ABSOLUTE_BASE@,
        ) == "http://127.0.0.1:8888/"@,
        first_set(None, section_base(None), DEFAULT_ABSOLUTE_BASE@) == "http://127.0.0.1:8888/"@,
        forall|b: Seq<char>|
            {
                &&& #[trigger] rule_for(RewriteMode::Relative, b) == rewrite::Rule::Relative
                &&& rule_for(RewriteMode::Absolute, b) == (rewrite::Rule::Absolute { base: b })
                &&& rule_for(RewriteMode::Keep, b) == rewrite::Rule::Keep
            },
{
}

/// The configuration file that was named is used, and without one that of the data directory,
/// where it is there. The `[record]` table gives its hosts and patterns as they are.
pub proof fn law_configuration_file(
    path: Seq<char>,
    dir: Seq<char>,
    exists_there: bool,
    s: RecordFilterSection,
)
    ensures
        config_file(Some(path), dir, exists_there) == Some(path),
        config_file(None, dir, true) == Some(paths::joined(dir, "tape-config.toml"@)),
        config_file(None, dir, false) is None,
        section_hosts(Some(s)) == text::texts(s.include_hosts@),
        section_patterns(Some(s)) == text::texts(s.include_hosts_regex@),
        section_hosts(None).len() == 0,
        section_patterns(None).len() == 0,
{
}

/// A message about the configuration names what is wrong with it.
pub proof fn law_messages_name_the_fault(v: Seq<char>)
    ensures
        fault_message(Fault::Regex(v)) == "配置中的正则非法: "@ + v,
        fault_message(Fault::Rewrite(v)) == "配置文件 [replay] 的 rewrite 取值非法: "@ + v
            + "（可选 relative / absolute / none）"@,
        fault_message(Fault::Dir(v)) == "数据目录不存在: "@ + v
            + "（请先运行 tape record 录制，或用 --dir 指定已录制目录）"@,
{
}

} // verus!
