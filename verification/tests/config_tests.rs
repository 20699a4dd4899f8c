use ytproxy::config::{
    default_chunk_size, default_max_concurrent_chunks, default_memory_pool_enabled,
    default_port, default_prefetch_ahead, Config, StartMitm,
};

fn no_args() -> StartMitm {
    StartMitm {
        port: None,
        cert_file: None,
        key_file: None,
        http_chunk_size: None,
        passphrase: None,
        config_file: None,
        generate_config: false,
    }
}

#[test]
fn default_values_match_the_documented_ones() {
    assert_eq!(default_port(), 8080);
    assert_eq!(default_chunk_size(), 10 * 1024 * 1024);
    assert_eq!(default_max_concurrent_chunks(), 2);
    assert_eq!(default_prefetch_ahead(), 20 * 1024 * 1024);
    assert!(default_memory_pool_enabled());
}

#[test]
fn default_config_is_fully_populated() {
    let c = Config::default();
    assert_eq!(c.proxy.port, 8080);
    assert_eq!(c.proxy.chunk_size, 10 * 1024 * 1024);
    assert_eq!(c.proxy.cert_file, "cert.pem");
    assert_eq!(c.proxy.key_file, "key.pem");
    assert!(!c.proxy.adaptive_chunking);
    assert_eq!(c.proxy.min_chunk_size, 2_621_440);
    assert_eq!(c.proxy.max_chunk_size, 40 * 1024 * 1024);
    assert!(!c.proxy.parallel_downloads);
    assert_eq!(c.proxy.max_concurrent_chunks, 2);
    assert_eq!(c.proxy.prefetch_ahead, 20 * 1024 * 1024);
    assert!(c.proxy.memory_pool_enabled);
    assert_eq!(c.security.passphrase, None);
    assert_eq!(c.security.cert_validity_days, 365);
    assert_eq!(c.logging.level, "info");
    assert_eq!(c.logging.log_file, None);
    assert!(!c.logging.log_timing);
    assert!(c.performance.http2);
    assert_eq!(c.performance.connection_pool_size, 10);
    assert_eq!(c.performance.request_timeout, 30);
}

#[test]
fn passphrase_prefers_config_then_environment_then_default() {
    let mut c = Config::default();
    assert_eq!(c.get_passphrase(None), "third-wheel");
    assert_eq!(c.get_passphrase(Some("from-env".to_string())), "from-env");
    c.security.passphrase = Some("from-config".to_string());
    assert_eq!(c.get_passphrase(Some("from-env".to_string())), "from-config");
    assert_eq!(c.get_passphrase(None), "from-config");
}

#[test]
fn cli_arguments_override_config_values() {
    let args = StartMitm {
        port: Some(12081),
        cert_file: Some("my-ca.pem".to_string()),
        key_file: None,
        http_chunk_size: Some(4096),
        passphrase: Some("sesame".to_string()),
        config_file: None,
        generate_config: false,
    };
    let merged = Config::default().merge_with_cli_args(&args);
    assert_eq!(merged.proxy.port, 12081);
    assert_eq!(merged.proxy.cert_file, "my-ca.pem");
    assert_eq!(merged.proxy.key_file, "key.pem"); // not given: kept
    assert_eq!(merged.proxy.chunk_size, 4096);
    assert_eq!(merged.security.passphrase, Some("sesame".to_string()));
}

#[test]
fn absent_cli_arguments_change_nothing() {
    let merged = Config::default().merge_with_cli_args(&no_args());
    assert_eq!(merged.proxy.port, 8080);
    assert_eq!(merged.proxy.chunk_size, 10 * 1024 * 1024);
    assert_eq!(merged.proxy.cert_file, "cert.pem");
    assert_eq!(merged.security.passphrase, None);
}
