//! Configuration: the command-line settings, their merge with a config
//! file, and validation with the messages the user sees.
use vstd::prelude::*;
use crate::persona::Persona;
use crate::text::{decimal, push_decimal};

verus! {

/// Invalid configuration: every problem found, one per line.
#[derive(Debug)]
pub struct ConfigError(String);

impl ConfigError {
    /// The text of the error.
    pub closed spec fn text(&self) -> Seq<char> {
        self.0@
    }

    /// The problems, one per line.
    pub fn message(&self) -> (m: &str)
        ensures
            m@ == self.text(),
    {
        self.0.as_str()
    }
}

/// The settings the honeypot runs with.
#[derive(Debug, Clone)]
pub struct CliConfig {
    /// Starting TCP port (1024–32767 or 61000–65535)
    pub port: u16,
    /// Number of hits from one IP before migration (1–1000)
    pub threshold: u32,
    /// Time window for detection in seconds (1–3600)
    pub window: u64,
    /// Path to log file (parent directory must be writable)
    pub log: String,
    /// Port for the HTTP dashboard/metrics server
    pub dashboard_port: u16,
    /// Optional config file (TOML)
    pub config: Option<String>,
    /// Protocol to emulate
    pub persona: Persona,
    /// Concurrent connection cap
    pub max_connections: usize,
}

/// The settings a config file may give; absent ones keep the command line's.
#[derive(Debug)]
pub struct FileConfig {
    pub port: Option<u16>,
    pub threshold: Option<u32>,
    pub window: Option<u64>,
    pub log: Option<String>,
    pub dashboard_port: Option<u16>,
    pub persona: Option<Persona>,
    pub max_connections: Option<usize>,
}

/// Which settings were given explicitly on the command line (and so
/// override the config file).
#[derive(Clone, Copy, Debug, PartialEq, Eq, Structural)]
pub struct CliGiven {
    pub port: bool,
    pub threshold: bool,
    pub window: bool,
    pub log: bool,
    pub dashboard_port: bool,
    pub persona: bool,
    pub max_connections: bool,
}

/// The state of the log path, as found on the file system.
#[derive(Debug)]
pub enum LogPathCheck {
    /// The file can be opened for appending.
    Writable,
    /// The parent directory (as displayed) does not exist.
    ParentMissing(String),
    /// Opening the file for appending failed with this error text.
    NotWritable(String),
}

/// A setting after the merge: the command line's when given there, else the
/// file's when it has one, else the command line's default.
pub open spec fn pick<T>(given: bool, cli: T, file: Option<T>) -> T {
    if given {
        cli
    } else {
        match file {
            Some(v) => v,
            None => cli,
        }
    }
}

fn pick_value<T>(given: bool, cli: T, file: Option<T>) -> (v: T)
    ensures
        v == pick(given, cli, file),
{
    if given {
        cli
    } else {
        match file {
            Some(v) => v,
            None => cli,
        }
    }
}

// ── Messages ─────────────────────────────────────────────────────────────────

pub open spec fn privileged_message(name: Seq<char>, port: u16) -> Seq<char> {
    name + " "@ + decimal(port as nat) + " is in the privileged range (<1024) — choose a port ≥1024"@
}

pub open spec fn ephemeral_message(name: Seq<char>, port: u16) -> Seq<char> {
    name + " "@ + decimal(port as nat)
        + " is in the Linux ephemeral range (32768–60999) — choose a port outside this range"@
}

pub open spec fn same_ports_message(port: u16, dashboard_port: u16) -> Seq<char> {
    "port ("@ + decimal(port as nat) + ") and dashboard-port ("@ + decimal(dashboard_port as nat)
        + ") must be different"@
}

pub open spec fn threshold_zero_message() -> Seq<char> {
    "threshold must be at least 1"@
}

pub open spec fn threshold_large_message(threshold: u32) -> Seq<char> {
    "threshold "@ + decimal(threshold as nat) + " is unreasonably large (max 1000)"@
}

pub open spec fn window_zero_message() -> Seq<char> {
    "window must be at least 1 second"@
}

pub open spec fn window_large_message(window: u64) -> Seq<char> {
    "window "@ + decimal(window as nat) + "s exceeds maximum of 3600s (1 hour)"@
}

pub open spec fn max_connections_zero_message() -> Seq<char> {
    "max-connections must be at least 1"@
}

pub open spec fn parent_missing_message(parent: Seq<char>) -> Seq<char> {
    "log path parent directory '"@ + parent + "' does not exist"@
}

pub open spec fn not_writable_message(log: Seq<char>, err: Seq<char>) -> Seq<char> {
    "log path '"@ + log + "' is not writable: "@ + err
}

/// The problems with a port: privileged below 1024, ephemeral in
/// 32768–60999, none otherwise.
pub open spec fn port_problems(port: u16, name: Seq<char>) -> Seq<Seq<char>> {
    if port < 1024 {
        seq![privileged_message(name, port)]
    } else if 32768 <= port <= 60999 {
        seq![ephemeral_message(name, port)]
    } else {
        Seq::empty()
    }
}

/// The problem, if any, that a condition reports.
pub open spec fn problem_if(cond: bool, msg: Seq<char>) -> Seq<Seq<char>> {
    if cond { seq![msg] } else { Seq::empty() }
}

/// The problems with the log path.
pub open spec fn log_problems(log: Seq<char>, check: LogPathCheck) -> Seq<Seq<char>> {
    match check {
        LogPathCheck::Writable => Seq::empty(),
        LogPathCheck::ParentMissing(parent) => seq![parent_missing_message(parent@)],
        LogPathCheck::NotWritable(err) => seq![not_writable_message(log, err@)],
    }
}

/// Every problem with a configuration, in the order they are reported.
pub open spec fn config_problems(c: CliConfig, log_check: LogPathCheck) -> Seq<Seq<char>> {
    port_problems(c.port, "port"@)
        + port_problems(c.dashboard_port, "dashboard-port"@)
        + problem_if(c.port == c.dashboard_port, same_ports_message(c.port, c.dashboard_port))
        + problem_if(c.threshold == 0, threshold_zero_message())
        + problem_if(c.threshold > 1000, threshold_large_message(c.threshold))
        + problem_if(c.window == 0, window_zero_message())
        + problem_if(c.window > 3600, window_large_message(c.window))
        + problem_if(c.max_connections == 0, max_connections_zero_message())
        + log_problems(c.log@, log_check)
}

/// The lines joined with `\n` between them.
pub open spec fn join_lines(lines: Seq<Seq<char>>) -> Seq<char>
    decreases lines.len(),
{
    if lines.len() == 0 {
        Seq::empty()
    } else if lines.len() == 1 {
        lines[0]
    } else {
        join_lines(lines.drop_last()) + seq!['\n'] + lines.last()
    }
}

/// The texts of a list of strings.
pub open spec fn texts(v: Seq<String>) -> Seq<Seq<char>> {
    v.map_values(|s: String| s@)
}

fn push_problem(errors: &mut Vec<String>, msg: String)
    ensures
        texts(final(errors)@) == texts(old(errors)@).push(msg@),
{
    errors.push(msg);
    assert(texts(errors@) =~= texts(old(errors)@).push(msg@));
}

fn push_literal(errors: &mut Vec<String>, msg: &str)
    ensures
        texts(final(errors)@) == texts(old(errors)@).push(msg@),
{
    push_problem(errors, msg.to_owned());
}

/// Checks that `port` is neither privileged (below 1024) nor in the Linux
/// ephemeral range (32768–60999), appending one message naming `name`
/// otherwise.
pub fn validate_port(port: u16, name: &str, errors: &mut Vec<String>)
    ensures
        texts(final(errors)@) == texts(old(errors)@) + port_problems(port, name@),
{
    if port < 1024 {
        let mut m = name.to_owned();
        m.append(" ");
        push_decimal(&mut m, port as u64);
        m.append(" is in the privileged range (<1024) — choose a port ≥1024");
        push_problem(errors, m);
    } else if 32768 <= port && port <= 60999 {
        let mut m = name.to_owned();
        m.append(" ");
        push_decimal(&mut m, port as u64);
        m.append(" is in the Linux ephemeral range (32768–60999) — choose a port outside this range");
        push_problem(errors, m);
    }
    assert(texts(errors@) =~= texts(old(errors)@) + port_problems(port, name@));
}

/// The lines joined with `\n` between them.
pub fn join_with_newlines(lines: &Vec<String>) -> (s: String)
    ensures
        s@ == join_lines(texts(lines@)),
{
    let mut s = String::new();
    let mut i: usize = 0;
    while i < lines.len()
        invariant
            i <= lines@.len(),
            s@ == join_lines(texts(lines@).take(i as int)),
        decreases lines@.len() - i,
    {
        let ghost prev = texts(lines@).take(i as int);
        if i > 0 {
            s.push('\n');
        }
        s.append(lines[i].as_str());
        proof {
            let next = texts(lines@).take(i as int + 1);
            assert(next.drop_last() =~= prev);
            assert(next.last() == lines@[i as int]@);
            if i == 0 {
                assert(prev =~= Seq::<Seq<char>>::empty());
                assert(s@ =~= next[0]);
            }
        }
        i = i + 1;
    }
    assert(texts(lines@).take(lines@.len() as int) =~= texts(lines@));
    s
}

impl CliConfig {
    /// The settings after merging a config file: each setting given on the
    /// command line stays; the others take the file's value when it has one.
    /// With no file (it could not be read or parsed), nothing changes.
    pub fn merged(self, file: Option<FileConfig>, given: CliGiven) -> (c: CliConfig)
        ensures
            file is None ==> c == self,
            file matches Some(f) ==> {
                &&& c.port == pick(given.port, self.port, f.port)
                &&& c.threshold == pick(given.threshold, self.threshold, f.threshold)
                &&& c.window == pick(given.window, self.window, f.window)
                &&& c.log == pick(given.log, self.log, f.log)
                &&& c.dashboard_port == pick(given.dashboard_port, self.dashboard_port, f.dashboard_port)
                &&& c.persona == pick(given.persona, self.persona, f.persona)
                &&& c.max_connections == pick(given.max_connections, self.max_connections, f.max_connections)
                &&& c.config == self.config
            },
    {
        match file {
            None => self,
            Some(f) => CliConfig {
                port: pick_value(given.port, self.port, f.port),
                threshold: pick_value(given.threshold, self.threshold, f.threshold),
                window: pick_value(given.window, self.window, f.window),
                log: pick_value(given.log, self.log, f.log),
                dashboard_port: pick_value(given.dashboard_port, self.dashboard_port, f.dashboard_port),
                config: self.config,
                persona: pick_value(given.persona, self.persona, f.persona),
                max_connections: pick_value(given.max_connections, self.max_connections, f.max_connections),
            },
        }
    }

    /// Checks every setting and reports all problems at once: ports that are
    /// privileged or ephemeral, equal ports, a threshold outside 1–1000, a
    /// window outside 1–3600 s, no connection allowed, and the log path's
    /// state (`log_check`, found by the caller on the file system).
    pub fn validate(&self, log_check: &LogPathCheck) -> (r: Result<(), ConfigError>)
        ensures
            r is Ok <==> config_problems(*self, *log_check).len() == 0,
            r matches Err(e) ==> e.text() == join_lines(config_problems(*self, *log_check)),
    {
        let mut errors: Vec<String> = Vec::new();
        validate_port(self.port, "port", &mut errors);
        validate_port(self.dashboard_port, "dashboard-port", &mut errors);
        self.check_distinct_ports(&mut errors);
        self.check_threshold(&mut errors);
        self.check_window(&mut errors);
        self.check_max_connections(&mut errors);
        self.check_log(log_check, &mut errors);
        proof {
            let c = *self;
            assert(texts(errors@) =~= config_problems(c, *log_check));
        }
        if errors.len() == 0 {
            Ok(())
        } else {
            Err(ConfigError(join_with_newlines(&errors)))
        }
    }

    fn check_distinct_ports(&self, errors: &mut Vec<String>)
        ensures
            texts(final(errors)@) == texts(old(errors)@)
                + problem_if(self.port == self.dashboard_port, same_ports_message(self.port, self.dashboard_port)),
    {
        if self.port == self.dashboard_port {
            let mut m = "port (".to_owned();
            push_decimal(&mut m, self.port as u64);
            m.append(") and dashboard-port (");
            push_decimal(&mut m, self.dashboard_port as u64);
            m.append(") must be different");
            push_problem(errors, m);
        }
        assert(texts(errors@) =~= texts(old(errors)@)
            + problem_if(self.port == self.dashboard_port, same_ports_message(self.port, self.dashboard_port)));
    }

    fn check_threshold(&self, errors: &mut Vec<String>)
        ensures
            texts(final(errors)@) == texts(old(errors)@)
                + problem_if(self.threshold == 0, threshold_zero_message())
                + problem_if(self.threshold > 1000, threshold_large_message(self.threshold)),
    {
        if self.threshold == 0 {
            push_literal(errors, "threshold must be at least 1");
        }
        if self.threshold > 1000 {
            let mut m = "threshold ".to_owned();
            push_decimal(&mut m, self.threshold as u64);
            m.append(" is unreasonably large (max 1000)");
            push_problem(errors, m);
        }
        assert(texts(errors@) =~= texts(old(errors)@)
            + problem_if(self.threshold == 0, threshold_zero_message())
            + problem_if(self.threshold > 1000, threshold_large_message(self.threshold)));
    }

    fn check_window(&self, errors: &mut Vec<String>)
        ensures
            texts(final(errors)@) == texts(old(errors)@)
                + problem_if(self.window == 0, window_zero_message())
                + problem_if(self.window > 3600, window_large_message(self.window)),
    {
        if self.window == 0 {
            push_literal(errors, "window must be at least 1 second");
        }
        if self.window > 3600 {
            let mut m = "window ".to_owned();
            push_decimal(&mut m, self.window);
            m.append("s exceeds maximum of 3600s (1 hour)");
            push_problem(errors, m);
        }
        assert(texts(errors@) =~= texts(old(errors)@)
            + problem_if(self.window == 0, window_zero_message())
            + problem_if(self.window > 3600, window_large_message(self.window)));
    }

    fn check_max_connections(&self, errors: &mut Vec<String>)
        ensures
            texts(final(errors)@) == texts(old(errors)@)
                + problem_if(self.max_connections == 0, max_connections_zero_message()),
    {
        if self.max_connections == 0 {
            push_literal(errors, "max-connections must be at least 1");
        }
        assert(texts(errors@) =~= texts(old(errors)@)
            + problem_if(self.max_connections == 0, max_connections_zero_message()));
    }

    fn check_log(&self, log_check: &LogPathCheck, errors: &mut Vec<String>)
        ensures
            texts(final(errors)@) == texts(old(errors)@) + log_problems(self.log@, *log_check),
    {
        match log_check {
            LogPathCheck::Writable => {},
            LogPathCheck::ParentMissing(parent) => {
                let mut m = "log path parent directory '".to_owned();
                m.append(parent.as_str());
                m.append("' does not exist");
                push_problem(errors, m);
            },
            LogPathCheck::NotWritable(err) => {
                let mut m = "log path '".to_owned();
                m.append(self.log.as_str());
                m.append("' is not writable: ");
                m.append(err.as_str());
                push_problem(errors, m);
            },
        }
        assert(texts(errors@) =~= texts(old(errors)@) + log_problems(self.log@, *log_check));
    }
}

/// A configuration that validates has every setting in its documented range:
/// both ports at least 1024 and outside 32768–60999, different from each
/// other, a threshold in 1–1000, a window in 1–3600 seconds, at least one
/// connection allowed, and a usable log path.
pub proof fn law_valid_config_in_range(c: CliConfig, log_check: LogPathCheck)
    requires
        config_problems(c, log_check).len() == 0,
    ensures
        c.port >= 1024 && !(32768 <= c.port <= 60999),
        c.dashboard_port >= 1024 && !(32768 <= c.dashboard_port <= 60999),
        c.port != c.dashboard_port,
        1 <= c.threshold <= 1000,
        1 <= c.window <= 3600,
        c.max_connections >= 1,
        log_check is Writable,
{
    let p = config_problems(c, log_check);
    assert(port_problems(c.port, "port"@).len() <= p.len());
}


/// Every configuration in range is accepted: both ports unprivileged and
/// outside the ephemeral range and different from each other, a threshold
/// of 1 to 1000 hits, a window of 1 to 3600 seconds, any connection cap of
/// at least 1 and a writable log path give no problem at all.
pub proof fn law_config_in_range_is_valid(c: CliConfig)
    requires
        c.port >= 1024 && !(32768 <= c.port <= 60999),
        c.dashboard_port >= 1024 && !(32768 <= c.dashboard_port <= 60999),
        c.port != c.dashboard_port,
        1 <= c.threshold <= 1000,
        1 <= c.window <= 3600,
        c.max_connections >= 1,
    ensures
        config_problems(c, LogPathCheck::Writable).len() == 0,
{
}
} // verus!
