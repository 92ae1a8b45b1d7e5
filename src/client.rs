//! Settings and counters of the database client.
use vstd::prelude::*;

verus! {

/// Attempts per request when none is configured.
pub const DEFAULT_MAX_RETRIES: u32 = 3;

/// Pause between attempts, in milliseconds, when none is configured.
pub const DEFAULT_RETRY_DELAY_MS: u64 = 100;

/// Request timeout, in milliseconds, when none is configured.
pub const DEFAULT_TIMEOUT_MS: u64 = 30000;

/// Pooled connections when none is configured.
pub const DEFAULT_MAX_CONNECTIONS: usize = 32;

/// Time allowed to validate a query, in milliseconds, when none is configured.
pub const DEFAULT_VALIDATION_TIMEOUT_MS: u64 = 5000;

/// How the client retries, times out and pools connections. Durations are
/// in milliseconds.
#[derive(Debug, Clone, Copy, PartialEq, Eq, Structural)]
pub struct ClientConfig {
    pub max_retries: u32,
    pub retry_delay_ms: u64,
    pub timeout_ms: u64,
    pub max_connections: usize,
    pub validation_timeout_ms: u64,
}

/// The settings a client starts from.
pub open spec fn default_client_config() -> ClientConfig {
    ClientConfig {
        max_retries: DEFAULT_MAX_RETRIES,
        retry_delay_ms: DEFAULT_RETRY_DELAY_MS,
        timeout_ms: DEFAULT_TIMEOUT_MS,
        max_connections: DEFAULT_MAX_CONNECTIONS,
        validation_timeout_ms: DEFAULT_VALIDATION_TIMEOUT_MS,
    }
}

impl Default for ClientConfig {
    fn default() -> (c: ClientConfig)
        ensures
            c == default_client_config(),
    {
        ClientConfig {
            max_retries: DEFAULT_MAX_RETRIES,
            retry_delay_ms: DEFAULT_RETRY_DELAY_MS,
            timeout_ms: DEFAULT_TIMEOUT_MS,
            max_connections: DEFAULT_MAX_CONNECTIONS,
            validation_timeout_ms: DEFAULT_VALIDATION_TIMEOUT_MS,
        }
    }
}

/// Collects the endpoint and settings of a client before it is built.
#[derive(Debug, Clone)]
pub struct QuartzClientBuilder {
    pub endpoint: String,
    pub config: ClientConfig,
}

impl QuartzClientBuilder {
    /// A builder for `endpoint` with the default settings.
    pub fn new(endpoint: String) -> (b: QuartzClientBuilder)
        ensures
            b.endpoint == endpoint,
            b.config == default_client_config(),
    {
        QuartzClientBuilder { endpoint, config: ClientConfig::default() }
    }

    pub fn with_max_retries(self, max_retries: u32) -> (b: QuartzClientBuilder)
        ensures
            b.endpoint == self.endpoint,
            b.config == (ClientConfig { max_retries, ..self.config }),
    {
        let mut b = self;
        b.config.max_retries = max_retries;
        b
    }

    pub fn with_retry_delay(self, retry_delay_ms: u64) -> (b: QuartzClientBuilder)
        ensures
            b.endpoint == self.endpoint,
            b.config == (ClientConfig { retry_delay_ms, ..self.config }),
    {
        let mut b = self;
        b.config.retry_delay_ms = retry_delay_ms;
        b
    }

    pub fn with_timeout(self, timeout_ms: u64) -> (b: QuartzClientBuilder)
        ensures
            b.endpoint == self.endpoint,
            b.config == (ClientConfig { timeout_ms, ..self.config }),
    {
        let mut b = self;
        b.config.timeout_ms = timeout_ms;
        b
    }

    pub fn with_max_connections(self, max_connections: usize) -> (b: QuartzClientBuilder)
        ensures
            b.endpoint == self.endpoint,
            b.config == (ClientConfig { max_connections, ..self.config }),
    {
        let mut b = self;
        b.config.max_connections = max_connections;
        b
    }

    pub fn with_validation_timeout(self, validation_timeout_ms: u64) -> (b: QuartzClientBuilder)
        ensures
            b.endpoint == self.endpoint,
            b.config == (ClientConfig { validation_timeout_ms, ..self.config }),
    {
        let mut b = self;
        b.config.validation_timeout_ms = validation_timeout_ms;
        b
    }
}

/// Counters of a client: requests made and failed, connections in use, and
/// the latest connection-acquire and query times in milliseconds. The
/// request counters wrap around at `u64::MAX`. It is neither `Clone` nor
/// `Copy`: parts of a client that report to the same counters share one value
/// through a reference, so every reading sees every update.
#[derive(Debug, PartialEq, Eq, Structural)]
pub struct ClientMetrics {
    requests_total: u64,
    requests_failed: u64,
    connections_active: u64,
    connection_acquire_time: u64,
    query_execution_time: u64,
}

impl ClientMetrics {
    pub closed spec fn total(&self) -> u64 {
        self.requests_total
    }

    pub closed spec fn failed(&self) -> u64 {
        self.requests_failed
    }

    pub closed spec fn active(&self) -> u64 {
        self.connections_active
    }

    pub closed spec fn acquire_time(&self) -> u64 {
        self.connection_acquire_time
    }

    pub closed spec fn execution_time(&self) -> u64 {
        self.query_execution_time
    }

    /// All counters at zero.
    pub fn new() -> (m: ClientMetrics)
        ensures
            m.total() == 0 && m.failed() == 0 && m.active() == 0 && m.acquire_time() == 0
                && m.execution_time() == 0,
    {
        ClientMetrics {
            requests_total: 0,
            requests_failed: 0,
            connections_active: 0,
            connection_acquire_time: 0,
            query_execution_time: 0,
        }
    }

    /// Counts one more request.
    pub fn record_request(&mut self)
        ensures
            final(self).total() == (if old(self).total() == u64::MAX { 0 } else { old(self).total() + 1 }),
            final(self).failed() == old(self).failed(),
            final(self).active() == old(self).active(),
            final(self).acquire_time() == old(self).acquire_time(),
            final(self).execution_time() == old(self).execution_time(),
    {
        self.requests_total = if self.requests_total == u64::MAX { 0 } else { self.requests_total + 1 };
    }

    /// Counts one more failed request.
    pub fn record_failure(&mut self)
        ensures
            final(self).failed() == (if old(self).failed() == u64::MAX { 0 } else { old(self).failed() + 1 }),
            final(self).total() == old(self).total(),
            final(self).active() == old(self).active(),
            final(self).acquire_time() == old(self).acquire_time(),
            final(self).execution_time() == old(self).execution_time(),
    {
        self.requests_failed = if self.requests_failed == u64::MAX { 0 } else { self.requests_failed + 1 };
    }

    pub fn set_active_connections(&mut self, count: u64)
        ensures
            final(self).active() == count,
            final(self).total() == old(self).total(),
            final(self).failed() == old(self).failed(),
            final(self).acquire_time() == old(self).acquire_time(),
            final(self).execution_time() == old(self).execution_time(),
    {
        self.connections_active = count;
    }

    pub fn record_connection_acquire_time(&mut self, duration_ms: u64)
        ensures
            final(self).acquire_time() == duration_ms,
            final(self).total() == old(self).total(),
            final(self).failed() == old(self).failed(),
            final(self).active() == old(self).active(),
            final(self).execution_time() == old(self).execution_time(),
    {
        self.connection_acquire_time = duration_ms;
    }

    pub fn record_query_execution_time(&mut self, duration_ms: u64)
        ensures
            final(self).execution_time() == duration_ms,
            final(self).total() == old(self).total(),
            final(self).failed() == old(self).failed(),
            final(self).active() == old(self).active(),
            final(self).acquire_time() == old(self).acquire_time(),
    {
        self.query_execution_time = duration_ms;
    }

    pub fn get_total_requests(&self) -> (r: u64)
        ensures
            r == self.total(),
    {
        self.requests_total
    }

    pub fn get_failed_requests(&self) -> (r: u64)
        ensures
            r == self.failed(),
    {
        self.requests_failed
    }

    pub fn get_active_connections(&self) -> (r: u64)
        ensures
            r == self.active(),
    {
        self.connections_active
    }

    pub fn get_connection_acquire_time(&self) -> (r: u64)
        ensures
            r == self.acquire_time(),
    {
        self.connection_acquire_time
    }

    pub fn get_query_execution_time(&self) -> (r: u64)
        ensures
            r == self.execution_time(),
    {
        self.query_execution_time
    }
}

impl Default for ClientMetrics {
    fn default() -> (m: ClientMetrics)
        ensures
            m.total() == 0 && m.failed() == 0 && m.active() == 0 && m.acquire_time() == 0
                && m.execution_time() == 0,
    {
        ClientMetrics::new()
    }
}

} // verus!
