//! The configuration of the symbol server.
//!
//! A setting comes from the configuration file, else from a variable of
//! the environment, else from a default. The library does not read the
//! environment itself: each function that falls back on a variable
//! takes the value of that variable as an argument.
use vstd::prelude::*;
use vstd::string::*;
use crate::errors::ErrorKind;
use crate::sdk::opt_view;
use crate::text::{
    eq_ignore_ascii_case, parse_i64_text, parse_u32_text, spec_parse_i64, spec_parse_u32_text,
    str_eq,
};
use crate::utils::IgnorePatterns;

verus! {

/// The levels of logging.
#[derive(Clone, Copy, Debug, PartialEq, Eq, Structural)]
pub enum LogLevelFilter {
    Off,
    Error,
    Warn,
    Info,
    Debug,
    Trace,
}

/// The parts of a URL that the library reads.
#[derive(Clone, Debug, PartialEq, Eq)]
pub struct UrlParts {
    pub scheme: String,
    pub host: Option<String>,
    pub path: String,
}

/// What a `UrlParts` stands for.
pub struct UrlPartsView {
    pub scheme: Seq<char>,
    pub host: Option<Seq<char>>,
    pub path: Seq<char>,
}

impl View for UrlParts {
    type V = UrlPartsView;

    open spec fn view(&self) -> UrlPartsView {
        UrlPartsView { scheme: self.scheme@, host: opt_view(self.host), path: self.path@ }
    }
}

/// The optional parts that optional `UrlParts` stand for.
pub open spec fn opt_url_view(o: Option<UrlParts>) -> Option<UrlPartsView> {
    match o {
        Some(u) => Some(u@),
        None => None,
    }
}

/// Scheme, host and path of a text as `url::Url::parse` reads it, or
/// `None` where it refuses the text.
pub uninterp spec fn url_parse_result(value: Seq<char>) -> Option<UrlPartsView>;

/// Calls `url::Url::parse` and picks scheme, host and path of what it
/// returns. The contract names the result.
#[verifier::external_body]
fn parse_url(value: &str) -> (r: Option<UrlParts>)
    ensures
        opt_url_view(r) == url_parse_result(value@),
{
    url::Url::parse(value).ok().map(
        |u|
            UrlParts {
                scheme: u.scheme().to_string(),
                host: u.host_str().map(|h| h.to_string()),
                path: u.path().to_string(),
            },
    )
}

/// The level that a text names: one of `off`, `error`, `warn`, `info`,
/// `debug` and `trace`, in any case.
pub open spec fn spec_parse_log_level(s: Seq<char>) -> Option<LogLevelFilter> {
    if eq_ignore_ascii_case(s, "OFF"@) {
        Some(LogLevelFilter::Off)
    } else if eq_ignore_ascii_case(s, "ERROR"@) {
        Some(LogLevelFilter::Error)
    } else if eq_ignore_ascii_case(s, "WARN"@) {
        Some(LogLevelFilter::Warn)
    } else if eq_ignore_ascii_case(s, "INFO"@) {
        Some(LogLevelFilter::Info)
    } else if eq_ignore_ascii_case(s, "DEBUG"@) {
        Some(LogLevelFilter::Debug)
    } else if eq_ignore_ascii_case(s, "TRACE"@) {
        Some(LogLevelFilter::Trace)
    } else {
        None
    }
}

/// Calls `from_str` of `log::LevelFilter`, which compares the text with
/// the six names of the levels without regard to case and returns the
/// level of the first name that is equal.
#[verifier::external_body]
fn parse_log_level(s: &str) -> (r: Option<LogLevelFilter>)
    ensures
        r == spec_parse_log_level(s@),
{
    match s.parse::<log::LevelFilter>() {
        Ok(log::LevelFilter::Off) => Some(LogLevelFilter::Off),
        Ok(log::LevelFilter::Error) => Some(LogLevelFilter::Error),
        Ok(log::LevelFilter::Warn) => Some(LogLevelFilter::Warn),
        Ok(log::LevelFilter::Info) => Some(LogLevelFilter::Info),
        Ok(log::LevelFilter::Debug) => Some(LogLevelFilter::Debug),
        Ok(log::LevelFilter::Trace) => Some(LogLevelFilter::Trace),
        Err(_) => None,
    }
}

/// Calls `num_cpus::get`, which returns the number of CPUs that the
/// process may use: at least one.
#[verifier::external_body]
fn cpu_count() -> (r: usize)
    ensures
        r >= 1,
{
    num_cpus::get()
}

impl LogLevelFilter {
    /// The name of the level.
    pub open spec fn spec_name(self) -> Seq<char> {
        match self {
            LogLevelFilter::Off => "OFF"@,
            LogLevelFilter::Error => "ERROR"@,
            LogLevelFilter::Warn => "WARN"@,
            LogLevelFilter::Info => "INFO"@,
            LogLevelFilter::Debug => "DEBUG"@,
            LogLevelFilter::Trace => "TRACE"@,
        }
    }

    /// The name of the level.
    pub fn name(&self) -> (r: &'static str)
        ensures
            r@ == self.spec_name(),
    {
        match self {
            LogLevelFilter::Off => "OFF",
            LogLevelFilter::Error => "ERROR",
            LogLevelFilter::Warn => "WARN",
            LogLevelFilter::Info => "INFO",
            LogLevelFilter::Debug => "DEBUG",
            LogLevelFilter::Trace => "TRACE",
        }
    }
}

/// What the file holds of the bucket.
pub struct AwsConfig {
    pub access_key: Option<String>,
    pub secret_key: Option<String>,
    pub bucket_url: Option<String>,
    pub region: Option<String>,
}

/// What the file holds of the server.
pub struct ServerConfig {
    pub host: Option<String>,
    pub port: Option<u16>,
    pub healthcheck_ttl: Option<i64>,
    pub healthcheck_interval: Option<i64>,
    pub threads: Option<usize>,
}

/// What the file holds of logging.
pub struct LogConfig {
    pub level: Option<String>,
    pub file: Option<String>,
}

/// What the file holds of syncing.
pub struct SyncConfig {
    pub included: IgnorePatterns,
    pub excluded: IgnorePatterns,
    pub interval: Option<i64>,
}

/// Central config object that exposes the information from
/// the symbolserver yaml config.
pub struct Config {
    pub aws: AwsConfig,
    pub server: ServerConfig,
    pub log: LogConfig,
    pub symbol_dir: Option<String>,
    pub sync: SyncConfig,
}

/// The first of two optional texts that is there.
pub open spec fn first_of(a: Option<Seq<char>>, b: Option<Seq<char>>) -> Option<Seq<char>> {
    match a {
        Some(x) => Some(x),
        None => b,
    }
}

/// The view of an optional string slice.
pub open spec fn opt_str_view(o: Option<&str>) -> Option<Seq<char>> {
    match o {
        Some(s) => Some(s@),
        None => None,
    }
}

/// The number of threads that the server runs on a machine with this
/// many CPUs: five for every four CPUs.
pub open spec fn spec_default_threads(cpus: usize) -> int {
    cpus * 5 / 4
}

/// The number of threads that the server runs on a machine with this
/// many CPUs, as far as that number can be held.
pub fn default_threads(cpus: usize) -> (r: usize)
    ensures
        r == if spec_default_threads(cpus) <= usize::MAX {
            spec_default_threads(cpus)
        } else {
            usize::MAX as int
        },
{
    let threads: u128 = (cpus as u128) * 5 / 4;
    if threads <= usize::MAX as u128 {
        threads as usize
    } else {
        usize::MAX
    }
}

impl Config {
    /// A configuration that holds nothing.
    pub fn new() -> (r: Config)
        ensures
            r.aws.access_key is None,
            r.aws.secret_key is None,
            r.aws.bucket_url is None,
            r.aws.region is None,
            r.server.host is None,
            r.server.port is None,
            r.server.healthcheck_ttl is None,
            r.server.healthcheck_interval is None,
            r.server.threads is None,
            r.log.level is None,
            r.log.file is None,
            r.symbol_dir is None,
            r.sync.interval is None,
            r.sync.included@.len() == 0,
            r.sync.excluded@.len() == 0,
    {
        Config {
            aws: AwsConfig { access_key: None, secret_key: None, bucket_url: None, region: None },
            server: ServerConfig {
                host: None,
                port: None,
                healthcheck_ttl: None,
                healthcheck_interval: None,
                threads: None,
            },
            log: LogConfig { level: None, file: None },
            symbol_dir: None,
            sync: SyncConfig {
                included: IgnorePatterns::new(),
                excluded: IgnorePatterns::new(),
                interval: None,
            },
        }
    }

    /// Return the AWS access key
    pub fn get_aws_access_key(&self) -> (r: Option<&str>)
        ensures
            opt_str_view(r) == opt_view(self.aws.access_key),
    {
        match &self.aws.access_key {
            Some(k) => Some(k.as_str()),
            None => None,
        }
    }

    /// Return the AWS secret key
    pub fn get_aws_secret_key(&self) -> (r: Option<&str>)
        ensures
            opt_str_view(r) == opt_view(self.aws.secret_key),
    {
        match &self.aws.secret_key {
            Some(k) => Some(k.as_str()),
            None => None,
        }
    }

    /// What the bucket URL of a configuration is, given the text of it
    /// and what the text reads as: the URL must be there, must be read,
    /// must have the scheme `s3` and must name a bucket.
    pub fn check_bucket_url(text: Option<&str>, parsed: Option<UrlParts>) -> (r: Result<
        UrlParts,
        ErrorKind,
    >)
        ensures
            match r {
                Ok(url) => text is Some && parsed == Some(url) && url@.scheme == "s3"@
                    && url@.host is Some,
                Err(e) => e == (if text is None {
                    ErrorKind::MissingConfigKey("aws.bucket_url")
                } else if parsed is None {
                    ErrorKind::BadConfigKey("aws.bucket_url", "The bucket URL cannot be read")
                } else if parsed->0@.scheme != "s3"@ {
                    ErrorKind::BadConfigKey(
                        "aws.bucket_url",
                        "The scheme for the bucket URL needs to be s3",
                    )
                } else {
                    ErrorKind::BadConfigKey("aws.bucket_url", "The bucket URL is missing a name")
                }) && !(text is Some && parsed is Some && parsed->0@.scheme == "s3"@
                    && parsed->0@.host is Some),
            },
    {
        if text.is_none() {
            return Err(ErrorKind::MissingConfigKey("aws.bucket_url"));
        }
        let url = match parsed {
            Some(url) => url,
            None => {
                return Err(
                    ErrorKind::BadConfigKey("aws.bucket_url", "The bucket URL cannot be read"),
                );
            },
        };
        if !str_eq(url.scheme.as_str(), "s3") {
            return Err(
                ErrorKind::BadConfigKey(
                    "aws.bucket_url",
                    "The scheme for the bucket URL needs to be s3",
                ),
            );
        }
        if url.host.is_none() {
            return Err(
                ErrorKind::BadConfigKey("aws.bucket_url", "The bucket URL is missing a name"),
            );
        }
        Ok(url)
    }

    /// Return the AWS S3 bucket URL: that of the configuration, or else
    /// that of the environment, read and checked by `check_bucket_url`.
    pub fn get_aws_bucket_url(&self, env: Option<&str>) -> (r: Result<UrlParts, ErrorKind>)
        ensures
            ({
                let text = first_of(opt_view(self.aws.bucket_url), opt_str_view(env));
                let parsed = match text {
                    Some(t) => url_parse_result(t),
                    None => None,
                };
                match r {
                    Ok(url) => parsed == Some(url@) && url@.scheme == "s3"@ && url@.host is Some,
                    Err(e) => e == (if text is None {
                        ErrorKind::MissingConfigKey("aws.bucket_url")
                    } else if parsed is None {
                        ErrorKind::BadConfigKey("aws.bucket_url", "The bucket URL cannot be read")
                    } else if parsed->0.scheme != "s3"@ {
                        ErrorKind::BadConfigKey(
                            "aws.bucket_url",
                            "The scheme for the bucket URL needs to be s3",
                        )
                    } else {
                        ErrorKind::BadConfigKey(
                            "aws.bucket_url",
                            "The bucket URL is missing a name",
                        )
                    }) && !(parsed is Some && parsed->0.scheme == "s3"@ && parsed->0.host is Some),
                }
            }),
    {
        let text: Option<&str> = match &self.aws.bucket_url {
            Some(value) => Some(value.as_str()),
            None => env,
        };
        let parsed = match text {
            Some(t) => parse_url(t),
            None => None,
        };
        Config::check_bucket_url(text, parsed)
    }

    /// Overrides the AWS bucket URL.
    pub fn set_aws_bucket_url(&mut self, value: &str)
        ensures
            opt_view(final(self).aws.bucket_url) == Some(value@),
            final(self).aws.access_key == old(self).aws.access_key,
            final(self).aws.secret_key == old(self).aws.secret_key,
            final(self).aws.region == old(self).aws.region,
            final(self).server == old(self).server,
            final(self).log == old(self).log,
            final(self).symbol_dir == old(self).symbol_dir,
            final(self).sync == old(self).sync,
    {
        self.aws.bucket_url = Some(String::from_str(value));
    }

    /// Return the name of the AWS region: that of the configuration, or
    /// else that of the environment, or else `us-east-1`.
    pub fn get_aws_region(&self, env: Option<&str>) -> (r: String)
        ensures
            r@ == match first_of(opt_view(self.aws.region), opt_str_view(env)) {
                Some(region) => region,
                None => "us-east-1"@,
            },
    {
        match &self.aws.region {
            Some(region) => region.clone(),
            None => match env {
                Some(region) => String::from_str(region),
                None => String::from_str("us-east-1"),
            },
        }
    }

    /// Overrides the AWS region
    pub fn set_aws_region(&mut self, value: &str)
        ensures
            opt_view(final(self).aws.region) == Some(value@),
            final(self).aws.access_key == old(self).aws.access_key,
            final(self).aws.secret_key == old(self).aws.secret_key,
            final(self).aws.bucket_url == old(self).aws.bucket_url,
            final(self).server == old(self).server,
            final(self).log == old(self).log,
            final(self).symbol_dir == old(self).symbol_dir,
            final(self).sync == old(self).sync,
    {
        self.aws.region = Some(String::from_str(value));
    }

    /// Return the path where symbols are stored: that of the
    /// configuration, or else that of the environment.
    pub fn get_symbol_dir(&self, env: Option<&str>) -> (r: Result<String, ErrorKind>)
        ensures
            match r {
                Ok(dir) => first_of(opt_view(self.symbol_dir), opt_str_view(env)) == Some(dir@),
                Err(e) => e == ErrorKind::MissingConfigKey("symbol_dir") && first_of(
                    opt_view(self.symbol_dir),
                    opt_str_view(env),
                ) is None,
            },
    {
        match &self.symbol_dir {
            Some(path) => Ok(path.clone()),
            None => match env {
                Some(dir) => Ok(String::from_str(dir)),
                None => Err(ErrorKind::MissingConfigKey("symbol_dir")),
            },
        }
    }

    /// Override the symbol dir.
    pub fn set_symbol_dir(&mut self, value: &str)
        ensures
            opt_view(final(self).symbol_dir) == Some(value@),
            final(self).aws == old(self).aws,
            final(self).server == old(self).server,
            final(self).log == old(self).log,
            final(self).sync == old(self).sync,
    {
        self.symbol_dir = Some(String::from_str(value));
    }

    /// The host that the server binds to: that of the configuration, or
    /// else that of the environment, or else all addresses inside a
    /// container and the local one outside.
    pub fn get_server_host(&self, env: Option<&str>, in_docker: bool) -> (r: String)
        ensures
            r@ == match first_of(opt_view(self.server.host), opt_str_view(env)) {
                Some(host) => host,
                None => if in_docker {
                    "0.0.0.0"@
                } else {
                    "127.0.0.1"@
                },
            },
    {
        match &self.server.host {
            Some(host) => host.clone(),
            None => match env {
                Some(var) => String::from_str(var),
                None => if in_docker {
                    String::from_str("0.0.0.0")
                } else {
                    String::from_str("127.0.0.1")
                },
            },
        }
    }

    /// What a text means as a port.
    pub open spec fn spec_parse_port(s: Seq<char>) -> Option<u16> {
        match spec_parse_u32_text(s) {
            Some(p) => if p <= 0xffff {
                Some(p as u16)
            } else {
                None
            },
            None => None,
        }
    }

    /// The port that the server binds to: that of the configuration, or
    /// else that of the environment, or else 3000.
    pub fn get_server_port(&self, env: Option<&str>) -> (r: Result<u16, ErrorKind>)
        ensures
            r == (match self.server.port {
                Some(port) => Ok::<u16, ErrorKind>(port),
                None => match env {
                    Some(text) => match Self::spec_parse_port(text@) {
                        Some(port) => Ok(port),
                        None => Err(ErrorKind::BadEnvVar("PORT", "Invalid value for port")),
                    },
                    None => Ok(3000u16),
                },
            }),
    {
        match self.server.port {
            Some(port) => Ok(port),
            None => match env {
                Some(text) => match parse_u32_text(text) {
                    Some(p) => if p <= 0xffff {
                        Ok(p as u16)
                    } else {
                        Err(ErrorKind::BadEnvVar("PORT", "Invalid value for port"))
                    },
                    None => Err(ErrorKind::BadEnvVar("PORT", "Invalid value for port")),
                },
                None => Ok(3000),
            },
        }
    }

    /// Return the bind target for the http server
    pub fn get_server_socket_addr(
        &self,
        env_host: Option<&str>,
        env_port: Option<&str>,
        in_docker: bool,
    ) -> (r: Result<(String, u16), ErrorKind>)
        ensures
            match r {
                Ok((host, port)) => host@ == (match first_of(
                    opt_view(self.server.host),
                    opt_str_view(env_host),
                ) {
                    Some(host) => host,
                    None => if in_docker {
                        "0.0.0.0"@
                    } else {
                        "127.0.0.1"@
                    },
                }) && (match self.server.port {
                    Some(p) => p == port,
                    None => match env_port {
                        Some(text) => Self::spec_parse_port(text@) == Some(port),
                        None => port == 3000,
                    },
                }),
                Err(e) => e == ErrorKind::BadEnvVar("PORT", "Invalid value for port")
                    && self.server.port is None && env_port is Some && Self::spec_parse_port(
                    env_port->0@,
                ) is None,
            },
    {
        let host = self.get_server_host(env_host, in_docker);
        match self.get_server_port(env_port) {
            Ok(port) => Ok((host, port)),
            Err(e) => Err(e),
        }
    }

    /// A number of seconds: that of the configuration, or else that of
    /// the environment, or else the default. It must not be negative.
    fn get_seconds(
        value: Option<i64>,
        env: Option<&str>,
        default: i64,
        key: &'static str,
        var: &'static str,
        invalid: &'static str,
        negative: &'static str,
    ) -> (r: Result<i64, ErrorKind>)
        requires
            default >= 0,
        ensures
            r == Self::spec_seconds(value, opt_str_view(env), default, key, var, invalid, negative),
    {
        let seconds = match value {
            Some(v) => v,
            None => match env {
                Some(text) => match parse_i64_text(text) {
                    Some(v) => v,
                    None => {
                        return Err(ErrorKind::BadEnvVar(var, invalid));
                    },
                },
                None => {
                    return Ok(default);
                },
            },
        };
        if seconds < 0 {
            return Err(ErrorKind::BadConfigKey(key, negative));
        }
        Ok(seconds)
    }

    /// What `get_seconds` gives.
    pub open spec fn spec_seconds(
        value: Option<i64>,
        env: Option<Seq<char>>,
        default: i64,
        key: &'static str,
        var: &'static str,
        invalid: &'static str,
        negative: &'static str,
    ) -> Result<i64, ErrorKind> {
        match value {
            Some(v) => if v < 0 {
                Err(ErrorKind::BadConfigKey(key, negative))
            } else {
                Ok(v)
            },
            None => match env {
                Some(text) => match spec_parse_i64(text) {
                    Some(v) => if v < 0 {
                        Err(ErrorKind::BadConfigKey(key, negative))
                    } else {
                        Ok(v)
                    },
                    None => Err(ErrorKind::BadEnvVar(var, invalid)),
                },
                None => Ok(default),
            },
        }
    }

    /// Return the server healthcheck ttl in seconds; two minutes where
    /// nothing is set.
    pub fn get_server_healthcheck_ttl(&self, env: Option<&str>) -> (r: Result<i64, ErrorKind>)
        ensures
            r == Self::spec_seconds(
                self.server.healthcheck_ttl,
                opt_str_view(env),
                120,
                "server.healthcheck_ttl",
                "SYMBOLSERVER_HEALTHCHECK_TTL",
                "Invalid value for healthcheck ttl",
                "Healthcheck TTL has to be positive",
            ),
    {
        Config::get_seconds(
            self.server.healthcheck_ttl,
            env,
            120,
            "server.healthcheck_ttl",
            "SYMBOLSERVER_HEALTHCHECK_TTL",
            "Invalid value for healthcheck ttl",
            "Healthcheck TTL has to be positive",
        )
    }

    /// Return the interval of the health probe in seconds; one minute
    /// where nothing is set.
    pub fn get_server_healthcheck_interval(&self, env: Option<&str>) -> (r: Result<
        i64,
        ErrorKind,
    >)
        ensures
            r == Self::spec_seconds(
                self.server.healthcheck_interval,
                opt_str_view(env),
                60,
                "server.healthcheck_interval",
                "SYMBOLSERVER_HEALTHCHECK_INTERVAL",
                "Invalid value for healthcheck interval",
                "Healthcheck interval has to be positive",
            ),
    {
        Config::get_seconds(
            self.server.healthcheck_interval,
            env,
            60,
            "server.healthcheck_interval",
            "SYMBOLSERVER_HEALTHCHECK_INTERVAL",
            "Invalid value for healthcheck interval",
            "Healthcheck interval has to be positive",
        )
    }

    /// Return the server sync interval in seconds; one minute where
    /// nothing is set.
    pub fn get_server_sync_interval(&self, env: Option<&str>) -> (r: Result<i64, ErrorKind>)
        ensures
            r == Self::spec_seconds(
                self.sync.interval,
                opt_str_view(env),
                60,
                "sync.interval",
                "SYMBOLSERVER_SYNC_INTERVAL",
                "Invalid value for sync interval",
                "Sync interval has to be positive",
            ),
    {
        Config::get_seconds(
            self.sync.interval,
            env,
            60,
            "sync.interval",
            "SYMBOLSERVER_SYNC_INTERVAL",
            "Invalid value for sync interval",
            "Sync interval has to be positive",
        )
    }

    /// The number of threads to listen on, given the number of CPUs of
    /// the machine: that of the configuration, or else that of the
    /// environment, or else five for every four CPUs.
    pub fn get_server_threads_with(&self, env: Option<&str>, cpus: usize) -> (r: Result<
        usize,
        ErrorKind,
    >)
        ensures
            match self.server.threads {
                Some(t) => r == Ok::<usize, ErrorKind>(t),
                None => match env {
                    Some(text) => match spec_parse_u32_text(text@) {
                        Some(t) => r == Ok::<usize, ErrorKind>(t as usize),
                        None => r == Err::<usize, ErrorKind>(
                            ErrorKind::BadEnvVar(
                                "SYMBOLSERVER_THREADS",
                                "Invalid value for thread count",
                            ),
                        ),
                    },
                    None => r matches Ok(t) && t == if spec_default_threads(cpus) <= usize::MAX {
                        spec_default_threads(cpus)
                    } else {
                        usize::MAX as int
                    },
                },
            },
    {
        match self.server.threads {
            Some(threads) => Ok(threads),
            None => match env {
                Some(text) => match parse_u32_text(text) {
                    Some(t) => Ok(t as usize),
                    None => Err(
                        ErrorKind::BadEnvVar(
                            "SYMBOLSERVER_THREADS",
                            "Invalid value for thread count",
                        ),
                    ),
                },
                None => Ok(default_threads(cpus)),
            },
        }
    }

    /// Return the number of threads to listen on: `get_server_threads_with`
    /// for the number of CPUs of this machine, which is at least one.
    pub fn get_server_threads(&self, env: Option<&str>) -> (r: Result<usize, ErrorKind>)
        ensures
            match self.server.threads {
                Some(t) => r == Ok::<usize, ErrorKind>(t),
                None => match env {
                    Some(text) => match spec_parse_u32_text(text@) {
                        Some(t) => r == Ok::<usize, ErrorKind>(t as usize),
                        None => r == Err::<usize, ErrorKind>(
                            ErrorKind::BadEnvVar(
                                "SYMBOLSERVER_THREADS",
                                "Invalid value for thread count",
                            ),
                        ),
                    },
                    None => r matches Ok(t) && t >= 1,
                },
            },
    {
        self.get_server_threads_with(env, cpu_count())
    }

    /// The log level filter, given the text of it and what the text
    /// names: `Info` where there is no text.
    pub fn check_log_level(text: Option<&str>, parsed: Option<LogLevelFilter>) -> (r: Result<
        LogLevelFilter,
        ErrorKind,
    >)
        ensures
            r == (match text {
                Some(_) => match parsed {
                    Some(level) => Ok::<LogLevelFilter, ErrorKind>(level),
                    None => Err(ErrorKind::BadConfigKey("log.level", "unknown log level")),
                },
                None => Ok(LogLevelFilter::Info),
            }),
    {
        match text {
            Some(_) => match parsed {
                Some(level) => Ok(level),
                None => Err(ErrorKind::BadConfigKey("log.level", "unknown log level")),
            },
            None => Ok(LogLevelFilter::Info),
        }
    }

    /// Return the log level filter: that of the configuration, or else
    /// that of the environment, or else `Info`.
    pub fn get_log_level_filter(&self, env: Option<&str>) -> (r: Result<LogLevelFilter, ErrorKind>)
        ensures
            r == (match first_of(opt_view(self.log.level), opt_str_view(env)) {
                Some(text) => match spec_parse_log_level(text) {
                    Some(level) => Ok::<LogLevelFilter, ErrorKind>(level),
                    None => Err(ErrorKind::BadConfigKey("log.level", "unknown log level")),
                },
                None => Ok(LogLevelFilter::Info),
            }),
    {
        let text: Option<&str> = match &self.log.level {
            Some(level) => Some(level.as_str()),
            None => env,
        };
        let parsed = match text {
            Some(t) => parse_log_level(t),
            None => None,
        };
        Config::check_log_level(text, parsed)
    }

    /// Override the log level filter in the config
    pub fn set_log_level_filter(&mut self, value: LogLevelFilter)
        ensures
            opt_view(final(self).log.level) == Some(value.spec_name()),
            final(self).log.file == old(self).log.file,
            final(self).aws == old(self).aws,
            final(self).server == old(self).server,
            final(self).symbol_dir == old(self).symbol_dir,
            final(self).sync == old(self).sync,
    {
        self.log.level = Some(String::from_str(value.name()));
    }

    /// Return the log filename: that of the configuration, or else that
    /// of the environment.
    pub fn get_log_filename(&self, env: Option<&str>) -> (r: Option<String>)
        ensures
            opt_view(r) == first_of(opt_view(self.log.file), opt_str_view(env)),
    {
        match &self.log.file {
            Some(path) => Some(path.clone()),
            None => match env {
                Some(path) => Some(String::from_str(path)),
                None => None,
            },
        }
    }

    /// Return the sync include filter
    pub fn get_sync_include_filter(&self) -> (r: &IgnorePatterns)
        ensures
            r@ == self.sync.included@,
    {
        &self.sync.included
    }

    /// Return the sync exclude filter
    pub fn get_sync_exclude_filter(&self) -> (r: &IgnorePatterns)
        ensures
            r@ == self.sync.excluded@,
    {
        &self.sync.excluded
    }
}

} // verus!
