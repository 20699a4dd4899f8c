//! Configuration surface of the proxy core: the settings the surrounding
//! program loads from its configuration file and command line, with their
//! defaults and the rule for merging command-line overrides.
//!
//! Reading the file, parsing TOML and the command line, and environment
//! lookups happen outside this crate; the core only defines the values.

use vstd::prelude::*;
use vstd::string::StringExecFns;

verus! {

pub const DEFAULT_PORT: u16 = 8080;

/// 10 MiB: the default cap for one rewritten range request.
pub const DEFAULT_CHUNK_SIZE: u64 = 10 * 1024 * 1024;

/// 2.5 MiB.
pub const DEFAULT_MIN_CHUNK_SIZE: u64 = 2_621_440;

/// 40 MiB.
pub const DEFAULT_MAX_CHUNK_SIZE: u64 = 40 * 1024 * 1024;

pub const DEFAULT_CERT_VALIDITY_DAYS: u32 = 365;

pub const DEFAULT_CONNECTION_POOL_SIZE: u32 = 10;

pub const DEFAULT_REQUEST_TIMEOUT: u64 = 30;

pub const DEFAULT_MAX_CONCURRENT_CHUNKS: u32 = 2;

/// 20 MiB of prefetch budget.
pub const DEFAULT_PREFETCH_AHEAD: u64 = 20 * 1024 * 1024;

pub fn default_port() -> (r: u16)
    ensures
        r == DEFAULT_PORT,
{
    DEFAULT_PORT
}

pub fn default_chunk_size() -> (r: u64)
    ensures
        r == DEFAULT_CHUNK_SIZE,
{
    DEFAULT_CHUNK_SIZE
}

pub fn default_cert_file() -> (r: String)
    ensures
        r@ == "cert.pem"@,
{
    String::from_str("cert.pem")
}

pub fn default_key_file() -> (r: String)
    ensures
        r@ == "key.pem"@,
{
    String::from_str("key.pem")
}

pub fn default_min_chunk_size() -> (r: u64)
    ensures
        r == DEFAULT_MIN_CHUNK_SIZE,
{
    DEFAULT_MIN_CHUNK_SIZE
}

pub fn default_max_chunk_size() -> (r: u64)
    ensures
        r == DEFAULT_MAX_CHUNK_SIZE,
{
    DEFAULT_MAX_CHUNK_SIZE
}

pub fn default_cert_validity_days() -> (r: u32)
    ensures
        r == DEFAULT_CERT_VALIDITY_DAYS,
{
    DEFAULT_CERT_VALIDITY_DAYS
}

pub fn default_log_level() -> (r: String)
    ensures
        r@ == "info"@,
{
    String::from_str("info")
}

pub fn default_connection_pool_size() -> (r: u32)
    ensures
        r == DEFAULT_CONNECTION_POOL_SIZE,
{
    DEFAULT_CONNECTION_POOL_SIZE
}

pub fn default_request_timeout() -> (r: u64)
    ensures
        r == DEFAULT_REQUEST_TIMEOUT,
{
    DEFAULT_REQUEST_TIMEOUT
}

/// HTTP/2 is on by default.
pub fn default_http2() -> (r: bool)
    ensures
        r == true,
{
    true
}

pub fn default_max_concurrent_chunks() -> (r: u32)
    ensures
        r == DEFAULT_MAX_CONCURRENT_CHUNKS,
{
    DEFAULT_MAX_CONCURRENT_CHUNKS
}

pub fn default_prefetch_ahead() -> (r: u64)
    ensures
        r == DEFAULT_PREFETCH_AHEAD,
{
    DEFAULT_PREFETCH_AHEAD
}

/// Buffer pooling is on by default.
pub fn default_memory_pool_enabled() -> (r: bool)
    ensures
        r == true,
{
    true
}

/// Settings of the proxy itself: where it listens, its certificate material,
/// and the chunking, prefetch and pooling policy of the core.
#[derive(Debug)]
pub struct ProxyConfig {
    pub port: u16,
    pub chunk_size: u64,
    pub cert_file: String,
    pub key_file: String,
    /// Declared and loaded, but consulted by no rewrite decision yet.
    pub adaptive_chunking: bool,
    /// Lower bound for adaptive chunking; inert for now.
    pub min_chunk_size: u64,
    /// Upper bound for adaptive chunking; inert for now.
    pub max_chunk_size: u64,
    /// Gates the prefetch tracker.
    pub parallel_downloads: bool,
    pub max_concurrent_chunks: u32,
    pub prefetch_ahead: u64,
    /// Gates the tiered buffer pool.
    pub memory_pool_enabled: bool,
}

#[derive(Debug)]
pub struct SecurityConfig {
    pub passphrase: Option<String>,
    pub cert_validity_days: u32,
}

#[derive(Debug)]
pub struct LoggingConfig {
    pub level: String,
    pub log_file: Option<String>,
    pub log_timing: bool,
}

#[derive(Debug)]
pub struct PerformanceConfig {
    pub http2: bool,
    pub connection_pool_size: u32,
    pub request_timeout: u64,
}

/// The whole configuration.
#[derive(Debug)]
pub struct Config {
    pub proxy: ProxyConfig,
    pub security: SecurityConfig,
    pub logging: LoggingConfig,
    pub performance: PerformanceConfig,
}

impl Default for ProxyConfig {
    fn default() -> (r: Self)
        ensures
            r.port == DEFAULT_PORT,
            r.chunk_size == DEFAULT_CHUNK_SIZE,
            r.cert_file@ == "cert.pem"@,
            r.key_file@ == "key.pem"@,
            r.adaptive_chunking == false,
            r.min_chunk_size == DEFAULT_MIN_CHUNK_SIZE,
            r.max_chunk_size == DEFAULT_MAX_CHUNK_SIZE,
            r.parallel_downloads == false,
            r.max_concurrent_chunks == DEFAULT_MAX_CONCURRENT_CHUNKS,
            r.prefetch_ahead == DEFAULT_PREFETCH_AHEAD,
            r.memory_pool_enabled == true,
    {
        ProxyConfig {
            port: default_port(),
            chunk_size: default_chunk_size(),
            cert_file: default_cert_file(),
            key_file: default_key_file(),
            adaptive_chunking: false,
            min_chunk_size: default_min_chunk_size(),
            max_chunk_size: default_max_chunk_size(),
            parallel_downloads: false,
            max_concurrent_chunks: default_max_concurrent_chunks(),
            prefetch_ahead: default_prefetch_ahead(),
            memory_pool_enabled: default_memory_pool_enabled(),
        }
    }
}

impl Default for SecurityConfig {
    fn default() -> (r: Self)
        ensures
            r.passphrase is None,
            r.cert_validity_days == DEFAULT_CERT_VALIDITY_DAYS,
    {
        SecurityConfig { passphrase: None, cert_validity_days: default_cert_validity_days() }
    }
}

impl Default for LoggingConfig {
    fn default() -> (r: Self)
        ensures
            r.level@ == "info"@,
            r.log_file is None,
            r.log_timing == false,
    {
        LoggingConfig { level: default_log_level(), log_file: None, log_timing: false }
    }
}

impl Default for PerformanceConfig {
    fn default() -> (r: Self)
        ensures
            r.http2 == true,
            r.connection_pool_size == DEFAULT_CONNECTION_POOL_SIZE,
            r.request_timeout == DEFAULT_REQUEST_TIMEOUT,
    {
        PerformanceConfig {
            http2: default_http2(),
            connection_pool_size: default_connection_pool_size(),
            request_timeout: default_request_timeout(),
        }
    }
}

impl Default for Config {
    fn default() -> (r: Self)
        ensures
            r.proxy.port == DEFAULT_PORT,
            r.proxy.chunk_size == DEFAULT_CHUNK_SIZE,
            r.proxy.cert_file@ == "cert.pem"@,
            r.proxy.key_file@ == "key.pem"@,
            r.proxy.adaptive_chunking == false,
            r.proxy.min_chunk_size == DEFAULT_MIN_CHUNK_SIZE,
            r.proxy.max_chunk_size == DEFAULT_MAX_CHUNK_SIZE,
            r.proxy.parallel_downloads == false,
            r.proxy.max_concurrent_chunks == DEFAULT_MAX_CONCURRENT_CHUNKS,
            r.proxy.prefetch_ahead == DEFAULT_PREFETCH_AHEAD,
            r.proxy.memory_pool_enabled == true,
            r.security.passphrase is None,
            r.security.cert_validity_days == DEFAULT_CERT_VALIDITY_DAYS,
            r.logging.level@ == "info"@,
            r.logging.log_file is None,
            r.logging.log_timing == false,
            r.performance.http2 == true,
            r.performance.connection_pool_size == DEFAULT_CONNECTION_POOL_SIZE,
            r.performance.request_timeout == DEFAULT_REQUEST_TIMEOUT,
    {
        Config {
            proxy: ProxyConfig::default(),
            security: SecurityConfig::default(),
            logging: LoggingConfig::default(),
            performance: PerformanceConfig::default(),
        }
    }
}

/// Command-line arguments of the proxy binary, as plain optional values.
/// Parsing them from the actual command line happens outside this crate.
#[derive(Debug)]
pub struct StartMitm {
    /// Port to bind the proxy to.
    pub port: Option<u16>,
    /// PEM file with the certificate-authority certificate.
    pub cert_file: Option<String>,
    /// PEM file with the certificate-authority signing key.
    pub key_file: Option<String>,
    /// Chunk size for rewritten range headers.
    pub http_chunk_size: Option<u64>,
    /// Passphrase for the signing key.
    pub passphrase: Option<String>,
    /// Path of the configuration file to load.
    pub config_file: Option<String>,
    /// Generate an example configuration file and exit.
    pub generate_config: bool,
}

impl Config {
    /// The signing-key passphrase to use: the configured one when set, else
    /// the caller-supplied environment value, else the fixed fallback.
    /// (Reading the environment itself happens outside this crate.)
    pub fn get_passphrase(&self, env_value: Option<String>) -> (r: String)
        ensures
            r@ == (match self.security.passphrase {
                Some(p) => p@,
                None => (match env_value {
                    Some(e) => e@,
                    None => "third-wheel"@,
                }),
            }),
    {
        match &self.security.passphrase {
            Some(p) => p.clone(),
            None => match env_value {
                Some(e) => e,
                None => String::from_str("third-wheel"),
            },
        }
    }

    /// Overlay command-line arguments on this configuration: an argument that
    /// was given replaces the configured value, everything else stays.
    pub fn merge_with_cli_args(self, args: &StartMitm) -> (r: Self)
        ensures
            r.proxy.port == (match args.port {
                Some(p) => p,
                None => self.proxy.port,
            }),
            r.proxy.cert_file@ == (match args.cert_file {
                Some(c) => c@,
                None => self.proxy.cert_file@,
            }),
            r.proxy.key_file@ == (match args.key_file {
                Some(k) => k@,
                None => self.proxy.key_file@,
            }),
            r.proxy.chunk_size == (match args.http_chunk_size {
                Some(c) => c,
                None => self.proxy.chunk_size,
            }),
            (match args.passphrase {
                Some(p) => r.security.passphrase is Some && r.security.passphrase->0@ == p@,
                None => r.security.passphrase == self.security.passphrase,
            }),
            r.proxy.adaptive_chunking == self.proxy.adaptive_chunking,
            r.proxy.min_chunk_size == self.proxy.min_chunk_size,
            r.proxy.max_chunk_size == self.proxy.max_chunk_size,
            r.proxy.parallel_downloads == self.proxy.parallel_downloads,
            r.proxy.max_concurrent_chunks == self.proxy.max_concurrent_chunks,
            r.proxy.prefetch_ahead == self.proxy.prefetch_ahead,
            r.proxy.memory_pool_enabled == self.proxy.memory_pool_enabled,
            r.security.cert_validity_days == self.security.cert_validity_days,
            r.logging == self.logging,
            r.performance == self.performance,
    {
        let mut merged = self;
        if let Some(port) = args.port {
            merged.proxy.port = port;
        }
        if let Some(cert_file) = &args.cert_file {
            merged.proxy.cert_file = cert_file.clone();
        }
        if let Some(key_file) = &args.key_file {
            merged.proxy.key_file = key_file.clone();
        }
        if let Some(chunk_size) = args.http_chunk_size {
            merged.proxy.chunk_size = chunk_size;
        }
        if let Some(passphrase) = &args.passphrase {
            merged.security.passphrase = Some(passphrase.clone());
        }
        merged
    }
}

} // verus!
