use symbolserver::config::{default_threads, Config, LogLevelFilter, UrlParts};
use symbolserver::errors::ErrorKind;

#[test]
fn test_config_keys() {
    let mut config = Config::new();
    assert_eq!(config.get_aws_access_key(), None);
    assert_eq!(config.get_aws_secret_key(), None);
    config.aws.access_key = Some("AKIA".to_string());
    config.aws.secret_key = Some("s3cr3t".to_string());
    assert_eq!(config.get_aws_access_key(), Some("AKIA"));
    assert_eq!(config.get_aws_secret_key(), Some("s3cr3t"));
}

#[test]
fn test_bucket_url() {
    let mut config = Config::new();
    assert_eq!(config.get_aws_bucket_url(None), Err(ErrorKind::MissingConfigKey("aws.bucket_url")));
    let url = config.get_aws_bucket_url(Some("s3://from-env/sdks")).unwrap();
    assert_eq!(url.host, Some("from-env".to_string()));
    config.set_aws_bucket_url("s3://my-bucket/some/prefix/");
    let url = config.get_aws_bucket_url(Some("s3://from-env/sdks")).unwrap();
    assert_eq!(url.scheme, "s3");
    assert_eq!(url.host, Some("my-bucket".to_string()));
    assert_eq!(url.path, "/some/prefix/");
    config.set_aws_bucket_url("https://my-bucket/some/prefix/");
    assert_eq!(config.get_aws_bucket_url(None),
               Err(ErrorKind::BadConfigKey("aws.bucket_url", "The scheme for the bucket URL needs to be s3")));
    config.set_aws_bucket_url("s3:/only/a/path");
    assert_eq!(config.get_aws_bucket_url(None),
               Err(ErrorKind::BadConfigKey("aws.bucket_url", "The bucket URL is missing a name")));
    config.set_aws_bucket_url("not a url");
    assert_eq!(config.get_aws_bucket_url(None),
               Err(ErrorKind::BadConfigKey("aws.bucket_url", "The bucket URL cannot be read")));
}

#[test]
fn test_check_bucket_url() {
    let url = UrlParts { scheme: "s3".to_string(), host: Some("b".to_string()), path: "/".to_string() };
    assert_eq!(Config::check_bucket_url(Some("s3://b/"), Some(url.clone())), Ok(url.clone()));
    assert_eq!(Config::check_bucket_url(None, Some(url)),
               Err(ErrorKind::MissingConfigKey("aws.bucket_url")));
    assert_eq!(Config::check_bucket_url(Some("x"), None),
               Err(ErrorKind::BadConfigKey("aws.bucket_url", "The bucket URL cannot be read")));
}

#[test]
fn test_region_and_symbol_dir() {
    let mut config = Config::new();
    assert_eq!(config.get_aws_region(None), "us-east-1");
    assert_eq!(config.get_aws_region(Some("eu-west-1")), "eu-west-1");
    config.set_aws_region("us-west-2");
    assert_eq!(config.get_aws_region(Some("eu-west-1")), "us-west-2");
    assert_eq!(config.get_symbol_dir(None), Err(ErrorKind::MissingConfigKey("symbol_dir")));
    assert_eq!(config.get_symbol_dir(Some("/env/dir")), Ok("/env/dir".to_string()));
    config.set_symbol_dir("/var/symbols");
    assert_eq!(config.get_symbol_dir(Some("/env/dir")), Ok("/var/symbols".to_string()));
}

#[test]
fn test_socket_addr() {
    let mut config = Config::new();
    assert_eq!(config.get_server_socket_addr(None, None, false), Ok(("127.0.0.1".to_string(), 3000)));
    assert_eq!(config.get_server_socket_addr(None, None, true), Ok(("0.0.0.0".to_string(), 3000)));
    assert_eq!(config.get_server_socket_addr(Some("10.0.0.1"), Some("8080"), true),
               Ok(("10.0.0.1".to_string(), 8080)));
    assert_eq!(config.get_server_socket_addr(None, Some("65536"), false),
               Err(ErrorKind::BadEnvVar("PORT", "Invalid value for port")));
    assert_eq!(config.get_server_socket_addr(None, Some("http"), false),
               Err(ErrorKind::BadEnvVar("PORT", "Invalid value for port")));
    config.server.host = Some("example.com".to_string());
    config.server.port = Some(80);
    assert_eq!(config.get_server_socket_addr(Some("10.0.0.1"), Some("bad"), true),
               Ok(("example.com".to_string(), 80)));
    assert_eq!(config.get_server_host(None, true), "example.com");
    assert_eq!(config.get_server_port(Some("1")), Ok(80));
}

#[test]
fn test_intervals() {
    let mut config = Config::new();
    assert_eq!(config.get_server_sync_interval(None), Ok(60));
    assert_eq!(config.get_server_healthcheck_ttl(None), Ok(120));
    assert_eq!(config.get_server_healthcheck_interval(None), Ok(60));
    assert_eq!(config.get_server_sync_interval(Some("90")), Ok(90));
    assert_eq!(config.get_server_sync_interval(Some("+90")), Ok(90));
    assert_eq!(config.get_server_sync_interval(Some("0")), Ok(0));
    assert_eq!(config.get_server_sync_interval(Some("-1")),
               Err(ErrorKind::BadConfigKey("sync.interval", "Sync interval has to be positive")));
    assert_eq!(config.get_server_sync_interval(Some("-9223372036854775808")),
               Err(ErrorKind::BadConfigKey("sync.interval", "Sync interval has to be positive")));
    assert_eq!(config.get_server_sync_interval(Some("9223372036854775807")), Ok(i64::MAX));
    assert_eq!(config.get_server_sync_interval(Some("9223372036854775808")),
               Err(ErrorKind::BadEnvVar("SYMBOLSERVER_SYNC_INTERVAL", "Invalid value for sync interval")));
    assert_eq!(config.get_server_sync_interval(Some("soon")),
               Err(ErrorKind::BadEnvVar("SYMBOLSERVER_SYNC_INTERVAL", "Invalid value for sync interval")));
    config.sync.interval = Some(5);
    config.server.healthcheck_ttl = Some(-5);
    assert_eq!(config.get_server_sync_interval(Some("90")), Ok(5));
    assert_eq!(config.get_server_healthcheck_ttl(Some("90")),
               Err(ErrorKind::BadConfigKey("server.healthcheck_ttl", "Healthcheck TTL has to be positive")));
}

#[test]
fn test_threads() {
    let mut config = Config::new();
    assert_eq!(default_threads(1), 1);
    assert_eq!(default_threads(4), 5);
    assert_eq!(default_threads(8), 10);
    assert_eq!(default_threads(usize::MAX), usize::MAX);
    assert_eq!(config.get_server_threads_with(None, 16), Ok(20));
    assert_eq!(config.get_server_threads_with(Some("3"), 16), Ok(3));
    assert_eq!(config.get_server_threads_with(Some("many"), 16),
               Err(ErrorKind::BadEnvVar("SYMBOLSERVER_THREADS", "Invalid value for thread count")));
    assert!(config.get_server_threads(None).unwrap() >= 1);
    assert_eq!(config.get_server_threads(Some("7")), Ok(7));
    config.server.threads = Some(2);
    assert_eq!(config.get_server_threads(Some("7")), Ok(2));
}

#[test]
fn test_log_level() {
    let mut config = Config::new();
    assert_eq!(config.get_log_level_filter(None), Ok(LogLevelFilter::Info));
    assert_eq!(config.get_log_level_filter(Some("debug")), Ok(LogLevelFilter::Debug));
    assert_eq!(config.get_log_level_filter(Some("WARN")), Ok(LogLevelFilter::Warn));
    assert_eq!(config.get_log_level_filter(Some("Off")), Ok(LogLevelFilter::Off));
    assert_eq!(config.get_log_level_filter(Some("error")), Ok(LogLevelFilter::Error));
    assert_eq!(config.get_log_level_filter(Some("tRaCe")), Ok(LogLevelFilter::Trace));
    assert_eq!(config.get_log_level_filter(Some("loud")),
               Err(ErrorKind::BadConfigKey("log.level", "unknown log level")));
    config.set_log_level_filter(LogLevelFilter::Error);
    assert_eq!(config.log.level, Some("ERROR".to_string()));
    assert_eq!(config.get_log_level_filter(Some("debug")), Ok(LogLevelFilter::Error));
    assert_eq!(Config::check_log_level(Some("x"), None),
               Err(ErrorKind::BadConfigKey("log.level", "unknown log level")));
    assert_eq!(Config::check_log_level(None, None), Ok(LogLevelFilter::Info));
    assert_eq!(LogLevelFilter::Trace.name(), "TRACE");
}

#[test]
fn test_log_filename_and_filters() {
    let mut config = Config::new();
    assert_eq!(config.get_log_filename(None), None);
    assert_eq!(config.get_log_filename(Some("/env.log")), Some("/env.log".to_string()));
    config.log.file = Some("/var/log/symbols.log".to_string());
    assert_eq!(config.get_log_filename(Some("/env.log")), Some("/var/log/symbols.log".to_string()));
    config.sync.included.push("iOS_*");
    config.sync.excluded.push("iOS_9*");
    assert!(config.get_sync_include_filter().is_match("iOS_10.2.3_14C93.memdbz"));
    assert!(!config.get_sync_exclude_filter().is_match("iOS_10.2.3_14C93.memdbz"));
    assert!(config.get_sync_exclude_filter().is_match("iOS_9.3.0_13E230.memdbz"));
}
